//! The prefix-indexed matching strategy ("suffix table").
//!
//! A radix-style tree over the literal tokens of the registered patterns:
//! each node holds literal entries kept sorted by their text, and extractor
//! entries de-duplicated by identity tag.  An entry optionally carries a
//! terminal pattern (a token path ends there) and a child node (token paths
//! continue below it).  Lookup descends by the longest common prefix among
//! the two lexicographic neighbours of the query, an approximation of a true
//! radix descent that this strategy keeps deliberately; extractor entries are
//! tried, in insertion order, only when no literal neighbour shares a prefix.

use vstd::prelude::*;

use crate::parsers::Parser;
use crate::parsers::ParserKind;
use crate::parsers::ParserModel;
use crate::parsers::spec_parser_kind;
use crate::parsers::spec_parser_name;
use crate::parsers::spec_parser_parse;
use crate::pattern::MatchModel;
use crate::pattern::MatchResult;
use crate::pattern::Pattern;
use crate::pattern::Token;
use crate::pattern::TokenModel;
use crate::pattern::opt_match_view;
use crate::text::common_prefix;
use crate::text::lex_lt;
use crate::text::lemma_lex_lt_transitive;
use crate::text::lemma_lex_lt_trichotomy;

verus! {

/// Model of one index node: the sorted literal entries and the
/// tag-deduplicated extractor entries of one tree level.
pub struct TableModel {
    pub lits: Seq<LitEntryModel>,
    pub pars: Seq<ParserEntryModel>,
}

/// Model of a literal entry: its text, the identity of the pattern that ends
/// here (if any), and the child node (if token paths continue).
pub struct LitEntryModel {
    pub literal: Seq<char>,
    pub terminal: Option<Seq<char>>,
    pub child: Option<TableModel>,
}

/// Model of an extractor entry.
pub struct ParserEntryModel {
    pub parser: ParserModel,
    pub terminal: Option<Seq<char>>,
    pub child: Option<TableModel>,
}

impl LitEntryModel {
    /// Every entry carries a terminal pattern or a child node, and its child
    /// is itself well-formed.
    pub open spec fn wf(self) -> bool
        decreases self,
    {
        &&& self.terminal is Some || self.child is Some
        &&& match self.child {
            Some(c) => c.wf(),
            None => true,
        }
    }
}

impl ParserEntryModel {
    pub open spec fn wf(self) -> bool
        decreases self,
    {
        &&& self.terminal is Some || self.child is Some
        &&& match self.child {
            Some(c) => c.wf(),
            None => true,
        }
    }
}

impl TableModel {
    /// Literal entries strictly sorted by text, extractor entries pairwise
    /// distinct by identity tag, every entry well-formed.
    pub open spec fn wf(self) -> bool
        decreases self,
    {
        &&& forall|i: int, j: int|
            0 <= i < j < self.lits.len() ==> lex_lt(self.lits[i].literal, self.lits[j].literal)
        &&& forall|i: int, j: int|
            0 <= i < j < self.pars.len() ==> spec_parser_kind(self.pars[i].parser)
                != spec_parser_kind(self.pars[j].parser)
        &&& forall|i: int| 0 <= i < self.lits.len() ==> (#[trigger] self.lits[i]).wf()
        &&& forall|i: int| 0 <= i < self.pars.len() ==> (#[trigger] self.pars[i]).wf()
    }

    pub open spec fn empty() -> TableModel {
        TableModel { lits: Seq::empty(), pars: Seq::empty() }
    }
}

/// How many literal entries order strictly before `v`: the insertion point of
/// `v` in the sorted entry list.
pub open spec fn count_lt(lits: Seq<LitEntryModel>, v: Seq<char>) -> int
    decreases lits.len(),
{
    if lits.len() == 0 {
        0
    } else {
        count_lt(lits.drop_last(), v) + if lex_lt(lits.last().literal, v) {
            1int
        } else {
            0int
        }
    }
}

pub proof fn lemma_count_lt_bounds(lits: Seq<LitEntryModel>, v: Seq<char>)
    ensures
        0 <= count_lt(lits, v) <= lits.len(),
    decreases lits.len(),
{
    if lits.len() > 0 {
        lemma_count_lt_bounds(lits.drop_last(), v);
    }
}

/// In a sorted entry list the insertion point splits the entries into those
/// strictly before `v` and the rest.
pub proof fn lemma_count_lt_sorted(lits: Seq<LitEntryModel>, v: Seq<char>)
    requires
        forall|i: int, j: int| 0 <= i < j < lits.len() ==> lex_lt(lits[i].literal, lits[j].literal),
    ensures
        0 <= count_lt(lits, v) <= lits.len(),
        forall|i: int| 0 <= i < count_lt(lits, v) ==> lex_lt(#[trigger] lits[i].literal, v),
        forall|i: int| count_lt(lits, v) <= i < lits.len() ==> !lex_lt(#[trigger] lits[i].literal, v),
    decreases lits.len(),
{
    lemma_count_lt_bounds(lits, v);
    if lits.len() > 0 {
        let prefix = lits.drop_last();
        let last = lits.last();
        lemma_count_lt_sorted(prefix, v);
        let p = count_lt(prefix, v);
        if lex_lt(last.literal, v) {
            assert forall|i: int| 0 <= i < lits.len() - 1 implies lex_lt(
                #[trigger] lits[i].literal,
                v,
            ) by {
                lemma_lex_lt_transitive(lits[i].literal, last.literal, v);
            }
            assert(p == lits.len() - 1) by {
                if p < lits.len() - 1 {
                    assert(!lex_lt(prefix[p].literal, v));
                    assert(prefix[p].literal == lits[p].literal);
                }
            }
        } else {
            assert forall|i: int| 0 <= i < p implies lex_lt(#[trigger] lits[i].literal, v) by {
                assert(prefix[i].literal == lits[i].literal);
            }
            assert forall|i: int| p <= i < lits.len() implies !lex_lt(
                #[trigger] lits[i].literal,
                v,
            ) by {
                if i < lits.len() - 1 {
                    assert(prefix[i].literal == lits[i].literal);
                }
            }
        }
    }
}

/// The insertion point is the one position with everything before it
/// strictly smaller and nothing from it on strictly smaller.
pub proof fn lemma_count_lt_is(lits: Seq<LitEntryModel>, v: Seq<char>, p: int)
    requires
        0 <= p <= lits.len(),
        forall|i: int| 0 <= i < p ==> lex_lt(#[trigger] lits[i].literal, v),
        forall|i: int| p <= i < lits.len() ==> !lex_lt(#[trigger] lits[i].literal, v),
    ensures
        count_lt(lits, v) == p,
    decreases lits.len(),
{
    if lits.len() > 0 {
        let prefix = lits.drop_last();
        assert forall|i: int| 0 <= i < prefix.len() implies prefix[i] == lits[i] by {}
        if p == lits.len() {
            lemma_count_lt_is(prefix, v, p - 1);
        } else {
            lemma_count_lt_is(prefix, v, if p < prefix.len() {
                p
            } else {
                prefix.len() as int
            });
        }
    }
}

/// The longest-common-prefix lookup at one level, as the strategy defines
/// it: an exact hit wins outright; otherwise only the two lexicographic
/// neighbours of the query are examined, and the one with the strictly
/// longer nonzero shared prefix wins, a tie or two zero lengths meaning no
/// literal match at this level.
pub open spec fn spec_lcp(t: TableModel, v: Seq<char>) -> Option<(int, int)> {
    let p = count_lt(t.lits, v);
    if 0 <= p < t.lits.len() && t.lits[p].literal == v {
        Some((p, v.len() as int))
    } else {
        let len_low = if 0 < p <= t.lits.len() {
            common_prefix(t.lits[p - 1].literal, v) as int
        } else {
            0
        };
        let len_high = if 0 <= p < t.lits.len() {
            common_prefix(t.lits[p].literal, v) as int
        } else {
            0
        };
        if len_low > len_high && len_low > 0 {
            Some((p - 1, len_low))
        } else if len_high > len_low && len_high > 0 {
            Some((p, len_high))
        } else {
            None
        }
    }
}

/// What the index node `t` yields on `v`.
///
/// A literal hit succeeds with that entry's terminal pattern only on full
/// consumption of both sides: the shared prefix must span all of `v` and all
/// of the entry's literal, so an input that merely cuts a stored literal
/// short does not match.  A hit shorter than `v` descends into the entry's
/// child on the truncated input; with no literal hit the extractor entries
/// are tried in their stored order.
pub open spec fn spec_table_parse(t: TableModel, v: Seq<char>) -> Option<MatchModel>
    decreases t, 1int,
{
    match spec_lcp(t, v) {
        Some((pos, len)) => {
            if !(0 <= pos < t.lits.len()) {
                None
            } else {
                let e = t.lits[pos];
                if len == v.len() {
                    if len == e.literal.len() {
                        match e.terminal {
                            Some(id) => Some(MatchModel { pattern: id, fields: Map::empty() }),
                            None => None,
                        }
                    } else {
                        None
                    }
                } else if len < v.len() {
                    match e.child {
                        Some(c) => spec_table_parse(c, v.skip(len)),
                        None => None,
                    }
                } else {
                    None
                }
            }
        },
        None => spec_try_parsers(t.pars, v),
    }
}

/// First extractor entry, in stored order, that yields a match on `v`.
pub open spec fn spec_try_parsers(pars: Seq<ParserEntryModel>, v: Seq<char>) -> Option<MatchModel>
    decreases pars, 1int,
{
    if pars.len() == 0 {
        None
    } else {
        match spec_parser_entry_parse(pars[0], v) {
            Some(m) => Some(m),
            None => spec_try_parsers(pars.subrange(1, pars.len() as int), v),
        }
    }
}

/// What one extractor entry yields on `v`: the extractor must consume a
/// prefix; with a child the rest must match below, with no child the rest
/// must be empty and the entry must end a pattern.  A named extractor
/// prepends its capture to whatever matched below.
pub open spec fn spec_parser_entry_parse(e: ParserEntryModel, v: Seq<char>) -> Option<MatchModel>
    decreases e, 0int,
{
    match spec_parser_parse(e.parser, v) {
        None => None,
        Some(n) => {
            let cap = v.take(n);
            let rest = v.skip(n);
            match e.child {
                Some(c) => match spec_table_parse(c, rest) {
                    Some(m) => Some(
                        MatchModel {
                            pattern: m.pattern,
                            fields: spec_capture(m.fields, spec_parser_name(e.parser), cap),
                        },
                    ),
                    None => None,
                },
                None => {
                    if rest.len() == 0 {
                        match e.terminal {
                            Some(id) => Some(
                                MatchModel {
                                    pattern: id,
                                    fields: spec_capture(
                                        Map::empty(),
                                        spec_parser_name(e.parser),
                                        cap,
                                    ),
                                },
                            ),
                            None => None,
                        }
                    } else {
                        None
                    }
                },
            }
        },
    }
}

/// Records a capture under the extractor's name; an unnamed extractor
/// records nothing.
pub open spec fn spec_capture(
    fields: Map<Seq<char>, Seq<char>>,
    name: Option<Seq<char>>,
    cap: Seq<char>,
) -> Map<Seq<char>, Seq<char>> {
    match name {
        Some(nm) => fields.insert(nm, cap),
        None => fields,
    }
}

/// First extractor entry whose identity tag is `k`, or the length of the
/// list when none carries it.
pub open spec fn find_kind(pars: Seq<ParserEntryModel>, k: ParserKind) -> int
    decreases pars.len(),
{
    if pars.len() == 0 {
        0
    } else if spec_parser_kind(pars[0].parser) == k {
        0
    } else {
        1 + find_kind(pars.subrange(1, pars.len() as int), k)
    }
}

pub proof fn lemma_find_kind(pars: Seq<ParserEntryModel>, k: ParserKind)
    ensures
        0 <= find_kind(pars, k) <= pars.len(),
        forall|i: int|
            0 <= i < find_kind(pars, k) ==> spec_parser_kind(#[trigger] pars[i].parser) != k,
        find_kind(pars, k) < pars.len() ==> spec_parser_kind(
            pars[find_kind(pars, k)].parser,
        ) == k,
    decreases pars.len(),
{
    if pars.len() > 0 && spec_parser_kind(pars[0].parser) != k {
        let rest = pars.subrange(1, pars.len() as int);
        lemma_find_kind(rest, k);
        assert forall|i: int|
            0 <= i < find_kind(pars, k) implies spec_parser_kind(#[trigger] pars[i].parser)
            != k by {
            if i > 0 {
                assert(rest[i - 1] == pars[i]);
            }
        }
        if find_kind(pars, k) < pars.len() {
            assert(rest[find_kind(rest, k)] == pars[find_kind(pars, k)]);
        }
    }
}

/// A fresh literal entry, before any pattern is attached to it.
pub open spec fn fresh_lit(l: Seq<char>) -> LitEntryModel {
    LitEntryModel { literal: l, terminal: None, child: None }
}

/// A fresh extractor entry.
pub open spec fn fresh_par(p: ParserModel) -> ParserEntryModel {
    ParserEntryModel { parser: p, terminal: None, child: None }
}

pub open spec fn child_or_empty(c: Option<TableModel>) -> TableModel {
    match c {
        Some(t) => t,
        None => TableModel::empty(),
    }
}

/// Insertion into the tree, one token per level.
///
/// A literal token reuses the entry with the same text or joins the sorted
/// list at its insertion point; an extractor token reuses the entry with the
/// same identity tag or is appended.  With tokens left the insert recurses
/// into the entry's child (created when absent); with none left the pattern
/// is attached as the entry's terminal, a later insert on the same token
/// path silently overwriting an earlier one.
pub open spec fn spec_insert(t: TableModel, tokens: Seq<TokenModel>, id: Seq<char>) -> TableModel
    decreases tokens.len(), 0int,
{
    if tokens.len() == 0 {
        t
    } else {
        let rest = tokens.drop_first();
        match tokens[0] {
            TokenModel::Literal(l) => {
                let p = count_lt(t.lits, l);
                if 0 <= p < t.lits.len() && t.lits[p].literal == l {
                    TableModel {
                        lits: t.lits.update(p, lit_entry_insert(t.lits[p], rest, id)),
                        pars: t.pars,
                    }
                } else {
                    TableModel {
                        lits: t.lits.insert(p, lit_entry_insert(fresh_lit(l), rest, id)),
                        pars: t.pars,
                    }
                }
            },
            TokenModel::Parser(pm) => {
                let q = find_kind(t.pars, spec_parser_kind(pm));
                if 0 <= q < t.pars.len() {
                    TableModel {
                        lits: t.lits,
                        pars: t.pars.update(q, par_entry_insert(t.pars[q], rest, id)),
                    }
                } else {
                    TableModel {
                        lits: t.lits,
                        pars: t.pars.push(par_entry_insert(fresh_par(pm), rest, id)),
                    }
                }
            },
        }
    }
}

/// The rest of an insert, at a literal entry: attach the pattern here when
/// its tokens are spent, else continue below.
pub open spec fn lit_entry_insert(
    e: LitEntryModel,
    rest: Seq<TokenModel>,
    id: Seq<char>,
) -> LitEntryModel
    decreases rest.len(), 1int,
{
    if rest.len() == 0 {
        LitEntryModel { literal: e.literal, terminal: Some(id), child: e.child }
    } else {
        LitEntryModel {
            literal: e.literal,
            terminal: e.terminal,
            child: Some(spec_insert(child_or_empty(e.child), rest, id)),
        }
    }
}

/// The rest of an insert, at an extractor entry.
pub open spec fn par_entry_insert(
    e: ParserEntryModel,
    rest: Seq<TokenModel>,
    id: Seq<char>,
) -> ParserEntryModel
    decreases rest.len(), 1int,
{
    if rest.len() == 0 {
        ParserEntryModel { parser: e.parser, terminal: Some(id), child: e.child }
    } else {
        ParserEntryModel {
            parser: e.parser,
            terminal: e.terminal,
            child: Some(spec_insert(child_or_empty(e.child), rest, id)),
        }
    }
}

/// Insertion keeps a node well-formed: sortedness, tag distinctness and
/// entry well-formedness survive every insert.
pub proof fn lemma_spec_insert_wf(t: TableModel, tokens: Seq<TokenModel>, id: Seq<char>)
    requires
        t.wf(),
    ensures
        spec_insert(t, tokens, id).wf(),
    decreases tokens.len(), 0int,
{
    if tokens.len() == 0 {
    } else {
        let rest = tokens.drop_first();
        match tokens[0] {
            TokenModel::Literal(l) => {
                let p = count_lt(t.lits, l);
                lemma_count_lt_sorted(t.lits, l);
                if 0 <= p < t.lits.len() && t.lits[p].literal == l {
                    let e2 = lit_entry_insert(t.lits[p], rest, id);
                    lemma_lit_entry_insert_wf(t.lits[p], rest, id);
                    let lits2 = t.lits.update(p, e2);
                    let t2 = spec_insert(t, tokens, id);
                    assert forall|i: int, j: int| 0 <= i < j < lits2.len() implies lex_lt(
                        lits2[i].literal,
                        lits2[j].literal,
                    ) by {
                        assert(lits2[i].literal == t.lits[i].literal);
                        assert(lits2[j].literal == t.lits[j].literal);
                    }
                    assert(t2.wf());
                } else {
                    let e2 = lit_entry_insert(fresh_lit(l), rest, id);
                    lemma_lit_entry_insert_wf_fresh(l, rest, id);
                    let lits2 = t.lits.insert(p, e2);
                    t.lits.insert_ensures(p, e2);
                    assert forall|i: int| 0 <= i < t.lits.len() implies t.lits[i].literal != l by {
                        if t.lits[i].literal == l {
                            if i < p {
                                lemma_lex_lt_trichotomy(t.lits[i].literal, l);
                            } else if i > p {
                                assert(lex_lt(t.lits[p].literal, t.lits[i].literal));
                            }
                        }
                    }
                    assert forall|i: int, j: int| 0 <= i < j < lits2.len() implies lex_lt(
                        lits2[i].literal,
                        lits2[j].literal,
                    ) by {
                        if i < p && j < p {
                        } else if i < p && j == p {
                            assert(lits2[i] == t.lits[i]);
                        } else if i == p && j > p {
                            assert(lits2[j] == t.lits[j - 1]);
                            assert(!lex_lt(t.lits[j - 1].literal, l));
                            lemma_lex_lt_trichotomy(l, t.lits[j - 1].literal);
                        } else if i < p && j > p {
                            assert(lits2[i] == t.lits[i]);
                            assert(lits2[j] == t.lits[j - 1]);
                            if p <= j - 1 {
                                assert(!lex_lt(t.lits[j - 1].literal, l));
                            }
                            lemma_lex_lt_trichotomy(l, t.lits[j - 1].literal);
                            lemma_lex_lt_transitive(t.lits[i].literal, l, t.lits[j - 1].literal);
                        } else {
                            assert(lits2[i] == t.lits[i - 1]);
                            assert(lits2[j] == t.lits[j - 1]);
                        }
                    }
                    let t2 = spec_insert(t, tokens, id);
                    assert forall|i: int| 0 <= i < lits2.len() implies (
                    #[trigger] lits2[i]).wf() by {
                        if i < p {
                            assert(lits2[i] == t.lits[i]);
                        } else if i > p {
                            assert(lits2[i] == t.lits[i - 1]);
                        }
                    }
                    assert(t2.wf());
                }
            },
            TokenModel::Parser(pm) => {
                let k = spec_parser_kind(pm);
                let q = find_kind(t.pars, k);
                lemma_find_kind(t.pars, k);
                if 0 <= q < t.pars.len() {
                    let e2 = par_entry_insert(t.pars[q], rest, id);
                    lemma_par_entry_insert_wf(t.pars[q], rest, id);
                    let pars2 = t.pars.update(q, e2);
                    let t2 = spec_insert(t, tokens, id);
                    assert forall|i: int, j: int| 0 <= i < j < pars2.len() implies spec_parser_kind(
                        pars2[i].parser,
                    ) != spec_parser_kind(pars2[j].parser) by {
                        assert(pars2[i].parser == t.pars[i].parser);
                        assert(pars2[j].parser == t.pars[j].parser);
                    }
                    assert(t2.wf());
                } else {
                    let e2 = par_entry_insert(fresh_par(pm), rest, id);
                    lemma_par_entry_insert_wf_fresh(pm, rest, id);
                    let pars2 = t.pars.push(e2);
                    let t2 = spec_insert(t, tokens, id);
                    assert forall|i: int, j: int| 0 <= i < j < pars2.len() implies spec_parser_kind(
                        pars2[i].parser,
                    ) != spec_parser_kind(pars2[j].parser) by {
                        if j < pars2.len() - 1 {
                            assert(pars2[i].parser == t.pars[i].parser);
                            assert(pars2[j].parser == t.pars[j].parser);
                        } else {
                            assert(pars2[i].parser == t.pars[i].parser);
                            assert(pars2[j].parser == pm);
                        }
                    }
                    assert forall|i: int| 0 <= i < pars2.len() implies (
                    #[trigger] pars2[i]).wf() by {
                        if i < pars2.len() - 1 {
                            assert(pars2[i] == t.pars[i]);
                        }
                    }
                    assert(t2.wf());
                }
            },
        }
    }
}

proof fn lemma_lit_entry_insert_wf(e: LitEntryModel, rest: Seq<TokenModel>, id: Seq<char>)
    requires
        e.wf(),
    ensures
        lit_entry_insert(e, rest, id).wf(),
        lit_entry_insert(e, rest, id).literal == e.literal,
    decreases rest.len(), 1int,
{
    if rest.len() > 0 {
        lemma_spec_insert_wf(child_or_empty(e.child), rest, id);
    }
}

proof fn lemma_lit_entry_insert_wf_fresh(l: Seq<char>, rest: Seq<TokenModel>, id: Seq<char>)
    ensures
        lit_entry_insert(fresh_lit(l), rest, id).wf(),
        lit_entry_insert(fresh_lit(l), rest, id).literal == l,
    decreases rest.len(), 1int,
{
    if rest.len() > 0 {
        lemma_spec_insert_wf(TableModel::empty(), rest, id);
    }
}

proof fn lemma_par_entry_insert_wf(e: ParserEntryModel, rest: Seq<TokenModel>, id: Seq<char>)
    requires
        e.wf(),
    ensures
        par_entry_insert(e, rest, id).wf(),
        par_entry_insert(e, rest, id).parser == e.parser,
    decreases rest.len(), 1int,
{
    if rest.len() > 0 {
        lemma_spec_insert_wf(child_or_empty(e.child), rest, id);
    }
}

proof fn lemma_par_entry_insert_wf_fresh(pm: ParserModel, rest: Seq<TokenModel>, id: Seq<char>)
    ensures
        par_entry_insert(fresh_par(pm), rest, id).wf(),
        par_entry_insert(fresh_par(pm), rest, id).parser == pm,
    decreases rest.len(), 1int,
{
    if rest.len() > 0 {
        lemma_spec_insert_wf(TableModel::empty(), rest, id);
    }
}

/// A literal entry of the index tree.
#[derive(Debug)]
pub struct LiteralE {
    pub pattern: Option<Pattern>,
    pub literal: String,
    pub child: Option<SuffixTable>,
}

/// An extractor entry of the index tree.
#[derive(Debug)]
pub struct ParserE {
    pub pattern: Option<Pattern>,
    pub parser: Parser,
    pub child: Option<SuffixTable>,
}

/// One node of the index tree; the matcher itself is the root node.
#[derive(Debug)]
pub struct SuffixTable {
    pub literal_entries: Vec<LiteralE>,
    pub parser_entries: Vec<ParserE>,
}

/// The identity a terminal pattern reports, if one is attached.
pub open spec fn terminal_model(p: Option<Pattern>) -> Option<Seq<char>> {
    match p {
        Some(pat) => Some(pat.uuid@),
        None => None,
    }
}

/// Model of one index node.
pub open spec fn table_model(t: SuffixTable) -> TableModel
    decreases t,
{
    TableModel {
        lits: lit_entries_model(t.literal_entries@),
        pars: par_entries_model(t.parser_entries@),
    }
}

pub open spec fn lit_entry_model(e: LiteralE) -> LitEntryModel
    decreases e,
{
    LitEntryModel {
        literal: e.literal@,
        terminal: terminal_model(e.pattern),
        child: match e.child {
            Some(c) => Some(table_model(c)),
            None => None,
        },
    }
}

pub open spec fn par_entry_model(e: ParserE) -> ParserEntryModel
    decreases e,
{
    ParserEntryModel {
        parser: e.parser@,
        terminal: terminal_model(e.pattern),
        child: match e.child {
            Some(c) => Some(table_model(c)),
            None => None,
        },
    }
}

pub open spec fn lit_entries_model(s: Seq<LiteralE>) -> Seq<LitEntryModel>
    decreases s,
{
    if s.len() == 0 {
        Seq::empty()
    } else {
        lit_entries_model(s.drop_last()).push(lit_entry_model(s.last()))
    }
}

pub open spec fn par_entries_model(s: Seq<ParserE>) -> Seq<ParserEntryModel>
    decreases s,
{
    if s.len() == 0 {
        Seq::empty()
    } else {
        par_entries_model(s.drop_last()).push(par_entry_model(s.last()))
    }
}

/// The entry list's model is the entrywise model.
pub broadcast proof fn lemma_lit_entries_model(s: Seq<LiteralE>)
    ensures
        (#[trigger] lit_entries_model(s)).len() == s.len(),
        forall|i: int| 0 <= i < s.len() ==> lit_entries_model(s)[i] == lit_entry_model(s[i]),
    decreases s.len(),
{
    if s.len() > 0 {
        lemma_lit_entries_model(s.drop_last());
    }
}

pub broadcast proof fn lemma_par_entries_model(s: Seq<ParserE>)
    ensures
        (#[trigger] par_entries_model(s)).len() == s.len(),
        forall|i: int| 0 <= i < s.len() ==> par_entries_model(s)[i] == par_entry_model(s[i]),
    decreases s.len(),
{
    if s.len() > 0 {
        lemma_par_entries_model(s.drop_last());
    }
}

impl LiteralE {
    /// A fresh entry for this literal text, before any pattern is attached.
    pub fn new(literal: String) -> (r: LiteralE)
        ensures
            lit_entry_model(r) == fresh_lit(literal@),
    {
        LiteralE { literal, pattern: None, child: None }
    }
}

impl ParserE {
    /// A fresh entry for this extractor, before any pattern is attached.
    pub fn new(parser: Parser) -> (r: ParserE)
        ensures
            par_entry_model(r) == fresh_par(parser@),
    {
        ParserE { pattern: None, parser, child: None }
    }
}

impl View for SuffixTable {
    type V = TableModel;

    open spec fn view(&self) -> TableModel {
        table_model(*self)
    }
}

/// A literal lookup result stays inside the entry list and never reports a
/// shared prefix longer than the query.
pub proof fn lemma_spec_lcp_bounds(t: TableModel, v: Seq<char>)
    ensures
        match spec_lcp(t, v) {
            Some((pos, len)) => 0 <= pos < t.lits.len() && 0 <= len <= v.len(),
            None => true,
        },
{
    lemma_count_lt_bounds(t.lits, v);
    let p = count_lt(t.lits, v);
    if 0 < p <= t.lits.len() {
        crate::text::lemma_common_prefix_bounds(t.lits[p - 1].literal, v);
    }
    if 0 <= p < t.lits.len() {
        crate::text::lemma_common_prefix_bounds(t.lits[p].literal, v);
    }
}

impl SuffixTable {
    /// An empty index: it matches nothing until patterns are inserted.
    pub fn new() -> (r: SuffixTable)
        ensures
            r@ == TableModel::empty(),
            r@.wf(),
    {
        let r = SuffixTable { literal_entries: Vec::new(), parser_entries: Vec::new() };
        proof {
            assert(r.literal_entries@.len() == 0);
            assert(r.parser_entries@.len() == 0);
        }
        r
    }

    /// Binary search among the sorted literal entries: whether `value` is
    /// present, and its position or insertion point.
    fn search_literals(&self, value: &str) -> (r: (bool, usize))
        requires
            self@.wf(),
        ensures
            r.1 == count_lt(self@.lits, value@),
            r.0 <==> (r.1 < self@.lits.len() && self@.lits[r.1 as int].literal == value@),
    {
        let ghost lits = self@.lits;
        proof {
            lemma_lit_entries_model(self.literal_entries@);
        }
        let n = self.literal_entries.len();
        let mut lo: usize = 0;
        let mut hi: usize = n;
        while lo < hi
            invariant
                self@.wf(),
                lits == self@.lits,
                n == self.literal_entries@.len(),
                n == lits.len(),
                lo <= hi <= n,
                forall|i: int| 0 <= i < lo ==> lex_lt(#[trigger] lits[i].literal, value@),
                forall|i: int| hi <= i < n ==> !lex_lt(#[trigger] lits[i].literal, value@),
            decreases hi - lo,
        {
            let mid = lo + (hi - lo) / 2;
            proof {
                lemma_lit_entries_model(self.literal_entries@);
            }
            let c = crate::text::str_compare(self.literal_entries[mid].literal.as_str(), value);
            proof {
                assert(lits[mid as int].literal == self.literal_entries@[mid as int].literal@);
            }
            if c == -1 {
                proof {
                    assert forall|i: int| 0 <= i < mid + 1 implies lex_lt(
                        #[trigger] lits[i].literal,
                        value@,
                    ) by {
                        if i < mid {
                            if i >= lo {
                                lemma_lex_lt_transitive(
                                    lits[i].literal,
                                    lits[mid as int].literal,
                                    value@,
                                );
                            }
                        }
                    }
                }
                lo = mid + 1;
            } else {
                proof {
                    assert forall|i: int| mid <= i < n implies !lex_lt(
                        #[trigger] lits[i].literal,
                        value@,
                    ) by {
                        if i > mid && lex_lt(lits[i].literal, value@) {
                            lemma_lex_lt_transitive(
                                lits[mid as int].literal,
                                lits[i].literal,
                                value@,
                            );
                        }
                    }
                }
                hi = mid;
            }
        }
        proof {
            lemma_count_lt_is(lits, value@, lo as int);
        }
        let exact = if lo < n {
            proof {
                lemma_lit_entries_model(self.literal_entries@);
            }
            let c = crate::text::str_compare(self.literal_entries[lo].literal.as_str(), value);
            proof {
                assert(lits[lo as int].literal == self.literal_entries@[lo as int].literal@);
            }
            c == 0
        } else {
            false
        };
        (exact, lo)
    }

    /// The longest-common-prefix lookup among this node's literal entries.
    fn longest_common_prefix(&self, value: &str) -> (r: Option<(usize, usize)>)
        requires
            self@.wf(),
        ensures
            match r {
                Some((pos, len)) => spec_lcp(self@, value@) == Some((pos as int, len as int))
                    && pos < self.literal_entries@.len() && len <= value@.len(),
                None => spec_lcp(self@, value@) is None,
            },
    {
        proof {
            lemma_spec_lcp_bounds(self@, value@);
            lemma_lit_entries_model(self.literal_entries@);
            lemma_count_lt_bounds(self@.lits, value@);
        }
        let n = self.literal_entries.len();
        let (exact, p) = self.search_literals(value);
        if exact {
            Some((p, value.unicode_len()))
        } else {
            let len_low = if p > 0 {
                crate::text::common_prefix_len(self.literal_entries[p - 1].literal.as_str(), value)
            } else {
                0
            };
            let len_high = if p < n {
                crate::text::common_prefix_len(self.literal_entries[p].literal.as_str(), value)
            } else {
                0
            };
            if len_low > len_high && len_low > 0 {
                Some((p - 1, len_low))
            } else if len_high > len_low && len_high > 0 {
                Some((p, len_high))
            } else {
                None
            }
        }
    }

    /// The pattern this index yields on `value`, with its captures; nothing
    /// when no pattern matches.
    pub fn parse(&self, value: &str) -> (r: Option<MatchResult>)
        requires
            self@.wf(),
        ensures
            opt_match_view(r) == spec_table_parse(self@, value@),
        decreases *self,
    {
        match self.longest_common_prefix(value) {
            Some((pos, len)) => {
                proof {
                    lemma_lit_entries_model(self.literal_entries@);
                }
                let e = &self.literal_entries[pos];
                let vlen = value.unicode_len();
                if len == vlen {
                    if len == e.literal.unicode_len() {
                        match &e.pattern {
                            Some(pat) => Some(MatchResult::new(pat)),
                            None => None,
                        }
                    } else {
                        None
                    }
                } else if len < vlen {
                    match &e.child {
                        Some(c) => {
                            let rest = value.substring_char(len, vlen);
                            proof {
                                assert(rest@ =~= value@.skip(len as int));
                                assert(self@.lits[pos as int].wf());
                            }
                            c.parse(rest)
                        },
                        None => None,
                    }
                } else {
                    None
                }
            },
            None => {
                let ghost pars = self@.pars;
                proof {
                    lemma_par_entries_model(self.parser_entries@);
                    assert(pars.skip(0) =~= pars);
                }
                let n = self.parser_entries.len();
                let mut i: usize = 0;
                while i < n
                    invariant
                        self@.wf(),
                        pars == self@.pars,
                        n == self.parser_entries@.len(),
                        n == pars.len(),
                        i <= n,
                        spec_table_parse(self@, value@) == spec_try_parsers(pars, value@),
                        spec_try_parsers(pars, value@) == spec_try_parsers(
                            pars.skip(i as int),
                            value@,
                        ),
                    decreases n - i,
                {
                    proof {
                        lemma_par_entries_model(self.parser_entries@);
                        assert(pars[i as int].wf());
                        assert(pars.skip(i as int)[0] == pars[i as int]);
                    }
                    let e = &self.parser_entries[i];
                    let attempt = e.parse(value);
                    if attempt.is_some() {
                        return attempt;
                    }
                    proof {
                        assert(pars.skip(i as int).subrange(
                            1,
                            pars.skip(i as int).len() as int,
                        ) =~= pars.skip(i as int + 1));
                    }
                    i = i + 1;
                }
                proof {
                    assert(pars.skip(n as int) =~= Seq::<ParserEntryModel>::empty());
                }
                None
            },
        }
    }
}

impl ParserE {
    /// What this extractor entry yields on `value`: the extractor must take a
    /// prefix, the rest must match below this entry (or be empty at a
    /// terminal), and a named extractor prepends its capture.
    pub fn parse(&self, value: &str) -> (r: Option<MatchResult>)
        requires
            match par_entry_model(*self).child {
                Some(c) => c.wf(),
                None => true,
            },
        ensures
            opt_match_view(r) == spec_parser_entry_parse(par_entry_model(*self), value@),
        decreases *self,
    {
        match self.parser.parse(value) {
            None => None,
            Some(n) => {
                let vlen = value.unicode_len();
                let rest = value.substring_char(n, vlen);
                proof {
                    assert(rest@ =~= value@.skip(n as int));
                }
                match &self.child {
                    Some(c) => {
                        match c.parse(rest) {
                            Some(m) => {
                                let mut m = m;
                                match self.parser.name() {
                                    Some(nm) => {
                                        let field_name = nm.clone();
                                        let cap = value.substring_char(0, n);
                                        proof {
                                            assert(cap@ =~= value@.take(n as int));
                                        }
                                        m.insert(field_name, cap.to_owned());
                                    },
                                    None => {},
                                }
                                Some(m)
                            },
                            None => None,
                        }
                    },
                    None => {
                        if rest.unicode_len() == 0 {
                            match &self.pattern {
                                Some(pat) => {
                                    let mut m = MatchResult::new(pat);
                                    match self.parser.name() {
                                        Some(nm) => {
                                            let field_name = nm.clone();
                                            let cap = value.substring_char(0, n);
                                            proof {
                                                assert(cap@ =~= value@.take(n as int));
                                            }
                                            m.insert(field_name, cap.to_owned());
                                        },
                                        None => {},
                                    }
                                    Some(m)
                                },
                                None => None,
                            }
                        } else {
                            None
                        }
                    },
                }
            },
        }
    }
}

/// Replacing one entry replaces its model.
proof fn lemma_lit_model_replace(s: Seq<LiteralE>, p: int, e: LiteralE)
    requires
        0 <= p < s.len(),
    ensures
        lit_entries_model(s.remove(p).insert(p, e)) == lit_entries_model(s).update(
            p,
            lit_entry_model(e),
        ),
{
    let s2 = s.remove(p).insert(p, e);
    lemma_lit_entries_model(s);
    lemma_lit_entries_model(s2);
    s.remove_ensures(p);
    s.remove(p).insert_ensures(p, e);
    assert forall|i: int| 0 <= i < s2.len() implies lit_entries_model(s2)[i] == lit_entries_model(
        s,
    ).update(p, lit_entry_model(e))[i] by {
        if i > p {
            assert(s.remove(p).insert(p, e)[(i - 1) + 1] == s.remove(p)[i - 1]);
        }
    }
    assert(lit_entries_model(s2) =~= lit_entries_model(s).update(p, lit_entry_model(e)));
}

/// Inserting an entry at a position inserts its model there.
proof fn lemma_lit_model_insert(s: Seq<LiteralE>, p: int, e: LiteralE)
    requires
        0 <= p <= s.len(),
    ensures
        lit_entries_model(s.insert(p, e)) == lit_entries_model(s).insert(p, lit_entry_model(e)),
{
    let s2 = s.insert(p, e);
    lemma_lit_entries_model(s);
    lemma_lit_entries_model(s2);
    s.insert_ensures(p, e);
    lit_entries_model(s).insert_ensures(p, lit_entry_model(e));
    assert forall|i: int| 0 <= i < s2.len() implies lit_entries_model(s2)[i] == lit_entries_model(
        s,
    ).insert(p, lit_entry_model(e))[i] by {
        if i > p {
            assert(s.insert(p, e)[(i - 1) + 1] == s[i - 1]);
            assert(lit_entries_model(s).insert(p, lit_entry_model(e))[(i - 1) + 1]
                == lit_entries_model(s)[i - 1]);
        }
    }
    assert(lit_entries_model(s2) =~= lit_entries_model(s).insert(p, lit_entry_model(e)));
}

proof fn lemma_par_model_replace(s: Seq<ParserE>, p: int, e: ParserE)
    requires
        0 <= p < s.len(),
    ensures
        par_entries_model(s.remove(p).insert(p, e)) == par_entries_model(s).update(
            p,
            par_entry_model(e),
        ),
{
    let s2 = s.remove(p).insert(p, e);
    lemma_par_entries_model(s);
    lemma_par_entries_model(s2);
    s.remove_ensures(p);
    s.remove(p).insert_ensures(p, e);
    assert forall|i: int| 0 <= i < s2.len() implies par_entries_model(s2)[i] == par_entries_model(
        s,
    ).update(p, par_entry_model(e))[i] by {
        if i > p {
            assert(s.remove(p).insert(p, e)[(i - 1) + 1] == s.remove(p)[i - 1]);
        }
    }
    assert(par_entries_model(s2) =~= par_entries_model(s).update(p, par_entry_model(e)));
}

/// Appending an entry appends its model.
proof fn lemma_par_model_push(s: Seq<ParserE>, e: ParserE)
    ensures
        par_entries_model(s.push(e)) == par_entries_model(s).push(par_entry_model(e)),
{
    assert(s.push(e).drop_last() =~= s);
    assert(s.push(e).last() == e);
}

proof fn lemma_find_kind_is(pars: Seq<ParserEntryModel>, k: ParserKind, q: int)
    requires
        0 <= q <= pars.len(),
        forall|i: int| 0 <= i < q ==> spec_parser_kind(#[trigger] pars[i].parser) != k,
        q < pars.len() ==> spec_parser_kind(pars[q].parser) == k,
    ensures
        find_kind(pars, k) == q,
    decreases pars.len(),
{
    if pars.len() > 0 {
        if spec_parser_kind(pars[0].parser) == k {
        } else {
            let rest = pars.subrange(1, pars.len() as int);
            assert forall|i: int| 0 <= i < q - 1 implies spec_parser_kind(
                #[trigger] rest[i].parser,
            ) != k by {
                assert(rest[i] == pars[i + 1]);
            }
            if q - 1 < rest.len() {
                assert(rest[q - 1] == pars[q]);
            }
            lemma_find_kind_is(rest, k, q - 1);
        }
    }
}

impl SuffixTable {
    /// First extractor entry with the identity tag `k`, or the entry count
    /// when none carries it.
    fn find_parser_entry(&self, k: ParserKind) -> (r: usize)
        ensures
            r == find_kind(self@.pars, k),
            r <= self.parser_entries@.len(),
    {
        let ghost pars = self@.pars;
        proof {
            lemma_par_entries_model(self.parser_entries@);
        }
        let n = self.parser_entries.len();
        let mut i: usize = 0;
        while i < n
            invariant
                pars == self@.pars,
                n == self.parser_entries@.len(),
                n == pars.len(),
                i <= n,
                forall|j: int| 0 <= j < i ==> spec_parser_kind(#[trigger] pars[j].parser) != k,
            decreases n - i,
        {
            proof {
                lemma_par_entries_model(self.parser_entries@);
            }
            let found = self.parser_entries[i].parser.kind();
            if found == k {
                proof {
                    lemma_find_kind_is(pars, k, i as int);
                }
                return i;
            }
            i = i + 1;
        }
        proof {
            lemma_find_kind_is(pars, k, n as int);
        }
        n
    }

    /// Registers a pattern, taking ownership and draining its tokens into the
    /// tree, one token per level.
    pub fn insert(&mut self, pattern: Pattern)
        requires
            old(self)@.wf(),
        ensures
            final(self)@ == spec_insert(old(self)@, pattern@.tokens, pattern@.uuid),
            final(self)@.wf(),
        decreases pattern@.tokens.len(), 0int,
    {
        let ghost t0 = self@;
        let ghost pm = pattern@;
        proof {
            lemma_spec_insert_wf(t0, pm.tokens, pm.uuid);
        }
        let mut pattern = pattern;
        match pattern.pop_first_token() {
            None => {},
            Some(token) => {
                match token {
                    Token::Literal(literal) => {
                        let (exact, p) = self.search_literals(literal.as_str());
                        proof {
                            lemma_lit_entries_model(self.literal_entries@);
                        }
                        let ghost lits0 = self.literal_entries@;
                        proof {
                            lemma_count_lt_bounds(t0.lits, literal@);
                        }
                        if exact {
                            let mut e = self.literal_entries.remove(p);
                            lit_entry_attach(&mut e, pattern);
                            self.literal_entries.insert(p, e);
                            proof {
                                lemma_lit_model_replace(lits0, p as int, e);
                            }
                        } else {
                            let mut e = LiteralE::new(literal);
                            lit_entry_attach(&mut e, pattern);
                            self.literal_entries.insert(p, e);
                            proof {
                                lemma_lit_model_insert(lits0, p as int, e);
                            }
                        }
                    },
                    Token::Parser(parser) => {
                        let k = parser.kind();
                        let q = self.find_parser_entry(k);
                        proof {
                            lemma_par_entries_model(self.parser_entries@);
                            lemma_find_kind(t0.pars, spec_parser_kind(parser@));
                        }
                        let ghost pars0 = self.parser_entries@;
                        if q < self.parser_entries.len() {
                            let mut e = self.parser_entries.remove(q);
                            par_entry_attach(&mut e, pattern);
                            self.parser_entries.insert(q, e);
                            proof {
                                lemma_par_model_replace(pars0, q as int, e);
                            }
                        } else {
                            let mut e = ParserE::new(parser);
                            par_entry_attach(&mut e, pattern);
                            self.parser_entries.push(e);
                            proof {
                                lemma_par_model_push(pars0, e);
                            }
                        }
                    },
                }
            },
        }
    }

    /// An independent deep copy of the whole index: every node, entry and
    /// extractor is duplicated, so the copy shares no state with the
    /// original.
    pub fn duplicate(&self) -> (r: SuffixTable)
        ensures
            r@ == self@,
        decreases *self,
    {
        let mut lits: Vec<LiteralE> = Vec::new();
        let ln = self.literal_entries.len();
        let mut i: usize = 0;
        while i < ln
            invariant
                ln == self.literal_entries@.len(),
                i <= ln,
                lits@.len() == i,
                forall|j: int|
                    0 <= j < i ==> lit_entry_model(#[trigger] lits@[j]) == lit_entry_model(
                        self.literal_entries@[j],
                    ),
            decreases ln - i,
        {
            let e = &self.literal_entries[i];
            let e2 = LiteralE {
                pattern: match &e.pattern {
                    Some(p) => Some(p.duplicate()),
                    None => None,
                },
                literal: e.literal.clone(),
                child: match &e.child {
                    Some(c) => Some(c.duplicate()),
                    None => None,
                },
            };
            lits.push(e2);
            i = i + 1;
        }
        let mut pars: Vec<ParserE> = Vec::new();
        let pn = self.parser_entries.len();
        let mut k: usize = 0;
        while k < pn
            invariant
                pn == self.parser_entries@.len(),
                k <= pn,
                pars@.len() == k,
                forall|j: int|
                    0 <= j < k ==> par_entry_model(#[trigger] pars@[j]) == par_entry_model(
                        self.parser_entries@[j],
                    ),
            decreases pn - k,
        {
            let e = &self.parser_entries[k];
            let e2 = ParserE {
                pattern: match &e.pattern {
                    Some(p) => Some(p.duplicate()),
                    None => None,
                },
                parser: e.parser.duplicate(),
                child: match &e.child {
                    Some(c) => Some(c.duplicate()),
                    None => None,
                },
            };
            pars.push(e2);
            k = k + 1;
        }
        let r = SuffixTable { literal_entries: lits, parser_entries: pars };
        proof {
            lemma_lit_entries_model(r.literal_entries@);
            lemma_lit_entries_model(self.literal_entries@);
            lemma_par_entries_model(r.parser_entries@);
            lemma_par_entries_model(self.parser_entries@);
            assert(lit_entries_model(r.literal_entries@) =~= lit_entries_model(
                self.literal_entries@,
            ));
            assert(par_entries_model(r.parser_entries@) =~= par_entries_model(
                self.parser_entries@,
            ));
        }
        r
    }

    /// Registers a pattern; the matcher-level name for `insert`.
    pub fn add_pattern(&mut self, pattern: Pattern)
        requires
            old(self)@.wf(),
        ensures
            final(self)@ == spec_insert(old(self)@, pattern@.tokens, pattern@.uuid),
            final(self)@.wf(),
    {
        self.insert(pattern)
    }
}

/// Attaches the drained pattern at a literal entry: as its terminal when the
/// tokens are spent, else by inserting the rest into the entry's child,
/// created first when absent.
fn lit_entry_attach(e: &mut LiteralE, pattern: Pattern)
    requires
        match old(e).child {
            Some(c) => table_model(c).wf(),
            None => true,
        },
    ensures
        lit_entry_model(*final(e)) == lit_entry_insert(
            lit_entry_model(*old(e)),
            pattern@.tokens,
            pattern@.uuid,
        ),
    decreases pattern@.tokens.len(), 1int,
{
    if pattern.tokens.len() > 0 {
        if e.child.is_none() {
            e.child = Some(SuffixTable::new());
        }
        match &mut e.child {
            Some(c) => c.insert(pattern),
            None => {
                proof {
                    assert(false);
                }
            },
        }
    } else {
        proof {
            assert(pattern@.tokens.len() == 0);
        }
        e.pattern = Some(pattern);
    }
}

/// Attaches the drained pattern at an extractor entry.
fn par_entry_attach(e: &mut ParserE, pattern: Pattern)
    requires
        match old(e).child {
            Some(c) => table_model(c).wf(),
            None => true,
        },
    ensures
        par_entry_model(*final(e)) == par_entry_insert(
            par_entry_model(*old(e)),
            pattern@.tokens,
            pattern@.uuid,
        ),
    decreases pattern@.tokens.len(), 1int,
{
    if pattern.tokens.len() > 0 {
        if e.child.is_none() {
            e.child = Some(SuffixTable::new());
        }
        match &mut e.child {
            Some(c) => c.insert(pattern),
            None => {
                proof {
                    assert(false);
                }
            },
        }
    } else {
        e.pattern = Some(pattern);
    }
}

} // verus!
