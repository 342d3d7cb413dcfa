//! Field extractors ("parsers"): the typed primitives that consume a prefix
//! of an input line and optionally record it under a field name.
//!
//! Three variants exist, as a closed enumeration:
//! - a set parser takes the longest nonempty prefix drawn from a fixed
//!   character class, optionally checked against a length window;
//! - an int parser is a set parser fixed to the decimal digits;
//! - a greedy parser takes everything up to (excluding) the first occurrence
//!   of an end marker, or the whole rest of the input when it has no marker.

use vstd::prelude::*;

use crate::text::first_occurrence;
use crate::text::find_first;
use crate::text::lemma_first_occurrence_from;
use crate::text::str_compare;
use crate::text::str_contains_char;

verus! {

/// Structural identity tag of an extractor: its kind, never its
/// configuration.  The prefix index merges extractor entries by this tag
/// alone.
#[derive(Debug, Clone, Copy, PartialEq, Eq, Structural)]
pub enum ParserKind {
    CharSet,
    Integer,
    Greedy,
}

/// Mathematical content of a set parser: the optional field name, the
/// character class, and the optional length window.
pub struct SetModel {
    pub name: Option<Seq<char>>,
    pub chars: Seq<char>,
    pub min_len: Option<int>,
    pub max_len: Option<int>,
}

/// Mathematical content of a greedy parser.
pub struct GreedyModel {
    pub name: Option<Seq<char>>,
    pub end: Option<Seq<char>>,
}

/// Mathematical content of an extractor, with its kind.
pub enum ParserModel {
    CharSet(SetModel),
    Integer(SetModel),
    Greedy(GreedyModel),
}

pub open spec fn opt_str_view(o: Option<String>) -> Option<Seq<char>> {
    match o {
        Some(s) => Some(s@),
        None => None,
    }
}

pub open spec fn opt_len_view(o: Option<usize>) -> Option<int> {
    match o {
        Some(n) => Some(n as int),
        None => None,
    }
}

/// Length of the longest prefix of `v` whose characters all belong to the
/// class `chars`.
pub open spec fn set_prefix_len(chars: Seq<char>, v: Seq<char>) -> nat
    decreases v.len(),
{
    if v.len() == 0 || !chars.contains(v[0]) {
        0
    } else {
        1 + set_prefix_len(chars, v.drop_first())
    }
}

pub proof fn lemma_set_prefix_len_bounds(chars: Seq<char>, v: Seq<char>)
    ensures
        set_prefix_len(chars, v) <= v.len(),
        forall|j: int| 0 <= j < set_prefix_len(chars, v) ==> chars.contains(v[j]),
        set_prefix_len(chars, v) < v.len() ==> !chars.contains(v[set_prefix_len(chars, v) as int]),
    decreases v.len(),
{
    if v.len() == 0 || !chars.contains(v[0]) {
    } else {
        lemma_set_prefix_len_bounds(chars, v.drop_first());
        let n = set_prefix_len(chars, v) as int;
        assert forall|j: int| 0 <= j < n implies chars.contains(v[j]) by {
            if j > 0 {
                assert(v.drop_first()[j - 1] == v[j]);
            }
        }
        if n < v.len() {
            assert(v.drop_first()[n - 1] == v[n]);
        }
    }
}

pub proof fn lemma_set_prefix_len_is(chars: Seq<char>, v: Seq<char>, n: int)
    requires
        0 <= n <= v.len(),
        forall|j: int| 0 <= j < n ==> chars.contains(v[j]),
        n == v.len() || !chars.contains(v[n]),
    ensures
        set_prefix_len(chars, v) == n,
    decreases v.len(),
{
    if n == 0 {
    } else {
        assert(chars.contains(v[0]));
        assert forall|j: int| 0 <= j < n - 1 implies chars.contains(v.drop_first()[j]) by {
            assert(v.drop_first()[j] == v[j + 1]);
        }
        if n - 1 < v.drop_first().len() {
            assert(v.drop_first()[n - 1] == v[n]);
        }
        lemma_set_prefix_len_is(chars, v.drop_first(), n - 1);
    }
}

/// What a set parser consumes from `v`: the longest class prefix, provided it
/// is nonempty and lies inside the length window; otherwise nothing.
pub open spec fn spec_set_parse(m: SetModel, v: Seq<char>) -> Option<int> {
    let n = set_prefix_len(m.chars, v) as int;
    if n == 0 {
        None
    } else if match m.min_len {
        Some(mn) => n < mn,
        None => false,
    } {
        None
    } else if match m.max_len {
        Some(mx) => n > mx,
        None => false,
    } {
        None
    } else {
        Some(n)
    }
}

/// What a greedy parser consumes from `v`: everything when it has no end
/// marker; everything before the first occurrence of the marker otherwise,
/// and nothing when the marker is absent.
pub open spec fn spec_greedy_parse(m: GreedyModel, v: Seq<char>) -> Option<int> {
    match m.end {
        None => Some(v.len() as int),
        Some(e) => first_occurrence(e, v),
    }
}

/// What an extractor consumes from `v`, by kind.
pub open spec fn spec_parser_parse(p: ParserModel, v: Seq<char>) -> Option<int> {
    match p {
        ParserModel::CharSet(m) => spec_set_parse(m, v),
        ParserModel::Integer(m) => spec_set_parse(m, v),
        ParserModel::Greedy(m) => spec_greedy_parse(m, v),
    }
}

/// The field name an extractor records its capture under, if any.
pub open spec fn spec_parser_name(p: ParserModel) -> Option<Seq<char>> {
    match p {
        ParserModel::CharSet(m) => m.name,
        ParserModel::Integer(m) => m.name,
        ParserModel::Greedy(m) => m.name,
    }
}

/// The identity tag of an extractor.
pub open spec fn spec_parser_kind(p: ParserModel) -> ParserKind {
    match p {
        ParserModel::CharSet(_) => ParserKind::CharSet,
        ParserModel::Integer(_) => ParserKind::Integer,
        ParserModel::Greedy(_) => ParserKind::Greedy,
    }
}

/// An extractor never consumes more than the input it was given.
pub proof fn lemma_parser_parse_bounds(p: ParserModel, v: Seq<char>)
    ensures
        match spec_parser_parse(p, v) {
            Some(n) => 0 <= n <= v.len(),
            None => true,
        },
{
    match p {
        ParserModel::CharSet(m) => lemma_set_prefix_len_bounds(m.chars, v),
        ParserModel::Integer(m) => lemma_set_prefix_len_bounds(m.chars, v),
        ParserModel::Greedy(m) => {
            match m.end {
                None => {},
                Some(e) => lemma_first_occurrence_from(e, v, 0),
            }
        },
    }
}

/// Extractor matching the longest nonempty prefix drawn from a fixed
/// character class, with an optional length window checked after the match.
#[derive(Debug)]
pub struct SetParser {
    pub name: Option<String>,
    pub set: String,
    pub min_len: Option<usize>,
    pub max_len: Option<usize>,
}

impl View for SetParser {
    type V = SetModel;

    open spec fn view(&self) -> SetModel {
        SetModel {
            name: opt_str_view(self.name),
            chars: self.set@,
            min_len: opt_len_view(self.min_len),
            max_len: opt_len_view(self.max_len),
        }
    }
}

/// Longest prefix of `value` drawn entirely from the class `chars`.
fn set_prefix_run(chars: &str, value: &str) -> (n: usize)
    ensures
        n == set_prefix_len(chars@, value@),
{
    let len = value.unicode_len();
    let mut i: usize = 0;
    loop
        invariant
            len == value@.len(),
            i <= len,
            forall|j: int| 0 <= j < i ==> chars@.contains(value@[j]),
        ensures
            i <= value@.len(),
            forall|j: int| 0 <= j < i ==> chars@.contains(value@[j]),
            i == value@.len() || !chars@.contains(value@[i as int]),
        decreases len - i,
    {
        if i >= len {
            break;
        }
        let c = value.get_char(i);
        if !str_contains_char(chars, c) {
            break;
        }
        i = i + 1;
    }
    proof {
        lemma_set_prefix_len_is(chars@, value@, i as int);
    }
    i
}

impl SetParser {
    pub fn set_min_length(&mut self, value: usize)
        ensures
            final(self)@ == (SetModel { min_len: Some(value as int), ..old(self)@ }),
    {
        self.min_len = Some(value);
    }

    pub fn set_max_length(&mut self, value: usize)
        ensures
            final(self)@ == (SetModel { max_len: Some(value as int), ..old(self)@ }),
    {
        self.max_len = Some(value);
    }

    pub fn set_name(&mut self, name: Option<String>)
        ensures
            final(self)@ == (SetModel { name: opt_str_view(name), ..old(self)@ }),
    {
        self.name = name;
    }

    pub fn name(&self) -> (r: Option<&String>)
        ensures
            match r {
                Some(s) => self@.name == Some(s@),
                None => self@.name is None,
            },
    {
        self.name.as_ref()
    }

    /// Number of characters this parser consumes from the front of `value`,
    /// or nothing when the class prefix is empty or outside the window.
    pub fn parse(&self, value: &str) -> (r: Option<usize>)
        ensures
            opt_len_view(r) == spec_set_parse(self@, value@),
            match r {
                Some(n) => n <= value@.len(),
                None => true,
            },
    {
        proof {
            lemma_set_prefix_len_bounds(self@.chars, value@);
        }
        let n = set_prefix_run(self.set.as_str(), value);
        if n == 0 {
            return None;
        }
        if let Some(mn) = self.min_len {
            if n < mn {
                return None;
            }
        }
        if let Some(mx) = self.max_len {
            if n > mx {
                return None;
            }
        }
        Some(n)
    }
}

/// Extractor for decimal integers: a set parser fixed to the digit class.
#[derive(Debug)]
pub struct IntParser {
    pub delegate: SetParser,
}

impl View for IntParser {
    type V = SetModel;

    open spec fn view(&self) -> SetModel {
        self.delegate@
    }
}

impl IntParser {
    pub fn parse(&self, value: &str) -> (r: Option<usize>)
        ensures
            opt_len_view(r) == spec_set_parse(self@, value@),
            match r {
                Some(n) => n <= value@.len(),
                None => true,
            },
    {
        self.delegate.parse(value)
    }

    pub fn name(&self) -> (r: Option<&String>)
        ensures
            match r {
                Some(s) => self@.name == Some(s@),
                None => self@.name is None,
            },
    {
        self.delegate.name()
    }

    pub fn set_name(&mut self, name: Option<String>)
        ensures
            final(self)@ == (SetModel { name: opt_str_view(name), ..old(self)@ }),
    {
        self.delegate.set_name(name)
    }
}

/// Extractor that consumes everything up to (excluding) the first occurrence
/// of its end marker, or the whole remaining input when it has no marker.
#[derive(Debug)]
pub struct GreedyParser {
    pub name: Option<String>,
    pub end_string: Option<String>,
}

impl View for GreedyParser {
    type V = GreedyModel;

    open spec fn view(&self) -> GreedyModel {
        GreedyModel { name: opt_str_view(self.name), end: opt_str_view(self.end_string) }
    }
}

impl GreedyParser {
    pub fn new(name: Option<&str>, end_string: Option<&str>) -> (r: GreedyParser)
        ensures
            r@.name == (match name {
                Some(s) => Some(s@),
                None => None::<Seq<char>>,
            }),
            r@.end == (match end_string {
                Some(s) => Some(s@),
                None => None::<Seq<char>>,
            }),
    {
        let owned_name = match name {
            Some(s) => Some(s.to_owned()),
            None => None,
        };
        let owned_end = match end_string {
            Some(s) => Some(s.to_owned()),
            None => None,
        };
        GreedyParser { name: owned_name, end_string: owned_end }
    }

    pub fn parse(&self, value: &str) -> (r: Option<usize>)
        ensures
            opt_len_view(r) == spec_greedy_parse(self@, value@),
            match r {
                Some(n) => n <= value@.len(),
                None => true,
            },
    {
        match &self.end_string {
            None => Some(value.unicode_len()),
            Some(end) => {
                proof {
                    lemma_first_occurrence_from(end@, value@, 0);
                }
                find_first(end.as_str(), value)
            },
        }
    }

    pub fn name(&self) -> (r: Option<&String>)
        ensures
            match r {
                Some(s) => self@.name == Some(s@),
                None => self@.name is None,
            },
    {
        self.name.as_ref()
    }

    pub fn set_name(&mut self, name: Option<String>)
        ensures
            final(self)@ == (GreedyModel { name: opt_str_view(name), ..old(self)@ }),
    {
        self.name = name;
    }
}

/// An extractor of any of the three kinds, as one closed capability.
#[derive(Debug)]
pub enum Parser {
    CharSet(SetParser),
    Integer(IntParser),
    Greedy(GreedyParser),
}

impl View for Parser {
    type V = ParserModel;

    open spec fn view(&self) -> ParserModel {
        match self {
            Parser::CharSet(p) => ParserModel::CharSet(p@),
            Parser::Integer(p) => ParserModel::Integer(p@),
            Parser::Greedy(p) => ParserModel::Greedy(p@),
        }
    }
}

impl Parser {
    /// Number of characters this extractor consumes from the front of
    /// `value`, or nothing when it does not match there.
    pub fn parse(&self, value: &str) -> (r: Option<usize>)
        ensures
            opt_len_view(r) == spec_parser_parse(self@, value@),
            match r {
                Some(n) => n <= value@.len(),
                None => true,
            },
    {
        match self {
            Parser::CharSet(p) => p.parse(value),
            Parser::Integer(p) => p.parse(value),
            Parser::Greedy(p) => p.parse(value),
        }
    }

    /// The field name this extractor records its capture under, if any.
    pub fn name(&self) -> (r: Option<&String>)
        ensures
            match r {
                Some(s) => spec_parser_name(self@) == Some(s@),
                None => spec_parser_name(self@) is None,
            },
    {
        match self {
            Parser::CharSet(p) => p.name(),
            Parser::Integer(p) => p.name(),
            Parser::Greedy(p) => p.name(),
        }
    }

    /// Renames the field this extractor records its capture under, leaving
    /// the rest of its configuration alone.
    pub fn set_name(&mut self, name: Option<String>)
        ensures
            spec_parser_name(final(self)@) == opt_str_view(name),
            spec_parser_kind(final(self)@) == spec_parser_kind(old(self)@),
            forall|text: Seq<char>|
                spec_parser_parse(final(self)@, text) == #[trigger] spec_parser_parse(
                    old(self)@,
                    text,
                ),
    {
        match self {
            Parser::CharSet(p) => p.set_name(name),
            Parser::Integer(p) => p.set_name(name),
            Parser::Greedy(p) => p.set_name(name),
        }
    }

    /// An independent copy of this extractor.
    pub fn duplicate(&self) -> (r: Parser)
        ensures
            r == *self,
    {
        match self {
            Parser::CharSet(p) => Parser::CharSet(
                SetParser {
                    name: match &p.name {
                        Some(s) => Some(s.clone()),
                        None => None,
                    },
                    set: p.set.clone(),
                    min_len: p.min_len,
                    max_len: p.max_len,
                },
            ),
            Parser::Integer(p) => Parser::Integer(
                IntParser {
                    delegate: SetParser {
                        name: match &p.delegate.name {
                            Some(s) => Some(s.clone()),
                            None => None,
                        },
                        set: p.delegate.set.clone(),
                        min_len: p.delegate.min_len,
                        max_len: p.delegate.max_len,
                    },
                },
            ),
            Parser::Greedy(p) => Parser::Greedy(
                GreedyParser {
                    name: match &p.name {
                        Some(s) => Some(s.clone()),
                        None => None,
                    },
                    end_string: match &p.end_string {
                        Some(s) => Some(s.clone()),
                        None => None,
                    },
                },
            ),
        }
    }

    /// The identity tag: the extractor's kind, never its configuration.
    pub fn kind(&self) -> (r: ParserKind)
        ensures
            r == spec_parser_kind(self@),
    {
        match self {
            Parser::CharSet(_) => ParserKind::CharSet,
            Parser::Integer(_) => ParserKind::Integer,
            Parser::Greedy(_) => ParserKind::Greedy,
        }
    }
}

/// An optional construction-time parameter for an extractor, as the pattern
/// compiler hands them over: an integer setting under a textual key.
pub enum OptionalParameter<'a> {
    Int(&'a str, usize),
}

/// One parameter applied to a set parser's configuration: `min_len` and
/// `max_len` adjust the length window; unknown keys are ignored.
pub open spec fn apply_param(m: SetModel, p: OptionalParameter) -> SetModel {
    match p {
        OptionalParameter::Int(key, value) => {
            if key@ == "min_len"@ {
                SetModel { min_len: Some(value as int), ..m }
            } else if key@ == "max_len"@ {
                SetModel { max_len: Some(value as int), ..m }
            } else {
                m
            }
        },
    }
}

pub open spec fn apply_params(m: SetModel, ps: Seq<OptionalParameter>) -> SetModel
    decreases ps.len(),
{
    if ps.len() == 0 {
        m
    } else {
        apply_params(apply_param(m, ps[0]), ps.drop_first())
    }
}

pub open spec fn opt_params_view(ps: Option<Vec<OptionalParameter>>) -> Seq<OptionalParameter> {
    match ps {
        Some(v) => v@,
        None => Seq::empty(),
    }
}

/// Applies `min_len` / `max_len` parameters to a set parser, in order.
fn set_optional_params(parser: &mut SetParser, opt_params: Option<Vec<OptionalParameter>>)
    ensures
        final(parser)@ == apply_params(old(parser)@, opt_params_view(opt_params)),
{
    if let Some(params) = opt_params {
        let ghost all = params@;
        proof {
            assert(all.skip(0) =~= all);
        }
        let mut i: usize = 0;
        let len = params.len();
        while i < len
            invariant
                len == all.len(),
                i <= len,
                params@ == all,
                apply_params(old(parser)@, all) == apply_params(parser@, all.skip(i as int)),
            decreases len - i,
        {
            proof {
                assert(all.skip(i as int)[0] == all[i as int]);
                assert(all.skip(i as int).drop_first() =~= all.skip(i as int + 1));
            }
            match &params[i] {
                OptionalParameter::Int(key, value) => {
                    if str_compare(key, "min_len") == 0 {
                        parser.set_min_length(*value);
                    } else if str_compare(key, "max_len") == 0 {
                        parser.set_max_length(*value);
                    }
                },
            }
            i = i + 1;
        }
        proof {
            assert(all.skip(len as int) =~= Seq::empty());
        }
    }
}

/// Builds the three extractor variants from compiled-pattern descriptions.
pub struct RegexParserFactory;

impl RegexParserFactory {
    /// A set parser over the character class `set`, with optional name and
    /// length-window parameters.
    pub fn new_set(set: &str, name: Option<&str>, opt_params: Option<Vec<OptionalParameter>>) -> (r:
        Parser)
        ensures
            r@ == ParserModel::CharSet(
                apply_params(
                    SetModel {
                        name: match name {
                            Some(s) => Some(s@),
                            None => None::<Seq<char>>,
                        },
                        chars: set@,
                        min_len: None,
                        max_len: None,
                    },
                    opt_params_view(opt_params),
                ),
            ),
    {
        let owned_name = match name {
            Some(s) => Some(s.to_owned()),
            None => None,
        };
        let mut parser = SetParser {
            name: owned_name,
            set: set.to_owned(),
            min_len: None,
            max_len: None,
        };
        set_optional_params(&mut parser, opt_params);
        Parser::CharSet(parser)
    }

    /// An int parser: a set parser fixed to the decimal digit class, with
    /// optional name and length-window parameters.
    pub fn new_int(name: Option<&str>, opt_params: Option<Vec<OptionalParameter>>) -> (r: Parser)
        ensures
            r@ == ParserModel::Integer(
                apply_params(
                    SetModel {
                        name: match name {
                            Some(s) => Some(s@),
                            None => None::<Seq<char>>,
                        },
                        chars: "0123456789"@,
                        min_len: None,
                        max_len: None,
                    },
                    opt_params_view(opt_params),
                ),
            ),
    {
        let owned_name = match name {
            Some(s) => Some(s.to_owned()),
            None => None,
        };
        let mut delegate = SetParser {
            name: owned_name,
            set: "0123456789".to_owned(),
            min_len: None,
            max_len: None,
        };
        set_optional_params(&mut delegate, opt_params);
        Parser::Integer(IntParser { delegate })
    }

    /// A greedy parser with an optional name and optional end marker.
    pub fn new_greedy(name: Option<&str>, end_string: Option<&str>) -> (r: Parser)
        ensures
            r@ == ParserModel::Greedy(
                GreedyModel {
                    name: match name {
                        Some(s) => Some(s@),
                        None => None::<Seq<char>>,
                    },
                    end: match end_string {
                        Some(s) => Some(s@),
                        None => None::<Seq<char>>,
                    },
                },
            ),
    {
        Parser::Greedy(GreedyParser::new(name, end_string))
    }
}

} // verus!
