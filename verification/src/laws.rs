//! Laws the matching strategies obey, stated and proved over the models that
//! the matchers' contracts speak of.

use vstd::prelude::*;

use crate::linear::spec_linear_parse;
use crate::linear::spec_pattern_match;
use crate::parsers::spec_parser_kind;
use crate::parsers::spec_parser_name;
use crate::parsers::spec_parser_parse;
use crate::parsers::lemma_parser_parse_bounds;
use crate::pattern::MatchModel;
use crate::pattern::PatternModel;
use crate::pattern::TokenModel;
use crate::suffix::LitEntryModel;
use crate::suffix::ParserEntryModel;
use crate::suffix::TableModel;
use crate::suffix::count_lt;
use crate::suffix::lemma_count_lt_bounds;
use crate::suffix::lemma_count_lt_sorted;
use crate::suffix::lemma_spec_lcp_bounds;
use crate::suffix::lemma_find_kind;
use crate::suffix::find_kind;
use crate::suffix::spec_insert;
use crate::suffix::spec_lcp;
use crate::suffix::spec_parser_entry_parse;
use crate::suffix::spec_table_parse;
use crate::suffix::spec_try_parsers;
use crate::text::common_prefix;
use crate::text::lemma_common_prefix_bounds;
use crate::text::lemma_lex_lt_irreflexive;
use crate::text::lex_lt;

verus! {

/// Law: matching is deterministic.  A parse is a pure function of the
/// matcher's state and the input text, for either strategy, so any two
/// results obtained from the same state on the same text are equal.
pub proof fn lemma_parse_deterministic(
    ps: Seq<PatternModel>,
    t: TableModel,
    text: Seq<char>,
    r1: Option<MatchModel>,
    r2: Option<MatchModel>,
    s1: Option<MatchModel>,
    s2: Option<MatchModel>,
)
    requires
        r1 == spec_linear_parse(ps, text),
        r2 == spec_linear_parse(ps, text),
        s1 == spec_table_parse(t, text),
        s2 == spec_table_parse(t, text),
    ensures
        r1 == r2,
        s1 == s2,
{
}

/// The pattern accepts the text under the sequential strategy.
pub open spec fn pattern_matches(p: PatternModel, text: Seq<char>) -> bool {
    spec_pattern_match(p, text) is Some
}

/// The sequential result is the result of the first matching pattern, and
/// there is none exactly when no pattern matches.
proof fn lemma_linear_parse_first_match(ps: Seq<PatternModel>, text: Seq<char>)
    ensures
        match spec_linear_parse(ps, text) {
            Some(m) => exists|i: int|
                0 <= i < ps.len() && #[trigger] pattern_matches(ps[i], text) && spec_pattern_match(
                    ps[i],
                    text,
                ) == Some(m) && forall|j: int| 0 <= j < i ==> !pattern_matches(ps[j], text),
            None => forall|i: int| 0 <= i < ps.len() ==> !pattern_matches(#[trigger] ps[i], text),
        },
    decreases ps.len(),
{
    if ps.len() == 0 {
    } else {
        let rest = ps.drop_first();
        lemma_linear_parse_first_match(rest, text);
        if spec_pattern_match(ps[0], text) is Some {
            assert(pattern_matches(ps[0], text));
        } else {
            match spec_linear_parse(rest, text) {
                Some(m) => {
                    let i = choose|i: int|
                        0 <= i < rest.len() && #[trigger] pattern_matches(rest[i], text)
                            && spec_pattern_match(rest[i], text) == Some(m) && forall|j: int|
                            0 <= j < i ==> !pattern_matches(rest[j], text);
                    assert(rest[i] == ps[i + 1]);
                    assert(pattern_matches(ps[i + 1], text));
                    assert(spec_pattern_match(ps[i + 1], text) == Some(m));
                    assert forall|j: int| 0 <= j < i + 1 implies !pattern_matches(
                        ps[j],
                        text,
                    ) by {
                        if j > 0 {
                            assert(rest[j - 1] == ps[j]);
                        }
                    }
                },
                None => {
                    assert forall|i: int| 0 <= i < ps.len() implies !pattern_matches(
                        #[trigger] ps[i],
                        text,
                    ) by {
                        if i > 0 {
                            assert(rest[i - 1] == ps[i]);
                        }
                    }
                },
            }
        }
    }
}

/// Law: insertion order of the sequential matcher does not matter on inputs
/// that at most one registered pattern accepts.  Reordering a pattern set
/// whose patterns never both accept the same input therefore cannot change
/// any result; order decides only genuinely ambiguous inputs, where the
/// first-registered pattern wins.
pub proof fn lemma_linear_order_independent(
    ps1: Seq<PatternModel>,
    ps2: Seq<PatternModel>,
    text: Seq<char>,
)
    requires
        ps1.to_multiset() == ps2.to_multiset(),
        forall|i: int, j: int|
            0 <= i < j < ps1.len() ==> !(pattern_matches(#[trigger] ps1[i], text)
                && pattern_matches(#[trigger] ps1[j], text)),
    ensures
        spec_linear_parse(ps1, text) == spec_linear_parse(ps2, text),
{
    broadcast use vstd::seq_lib::group_to_multiset_ensures;

    lemma_linear_parse_first_match(ps1, text);
    lemma_linear_parse_first_match(ps2, text);
    match (spec_linear_parse(ps1, text), spec_linear_parse(ps2, text)) {
        (Some(m1), Some(m2)) => {
            let i1 = choose|i: int|
                0 <= i < ps1.len() && #[trigger] pattern_matches(ps1[i], text)
                    && spec_pattern_match(ps1[i], text) == Some(m1);
            let i2 = choose|i: int|
                0 <= i < ps2.len() && #[trigger] pattern_matches(ps2[i], text)
                    && spec_pattern_match(ps2[i], text) == Some(m2);
            assert(ps2.contains(ps2[i2]));
            assert(ps1.to_multiset().count(ps2[i2]) > 0);
            assert(ps1.contains(ps2[i2]));
            let j = choose|j: int| 0 <= j < ps1.len() && ps1[j] == ps2[i2];
            assert(pattern_matches(ps1[j], text));
            assert(ps1[j] == ps1[i1]);
        },
        (Some(m1), None) => {
            let i1 = choose|i: int|
                0 <= i < ps1.len() && #[trigger] pattern_matches(ps1[i], text)
                    && spec_pattern_match(ps1[i], text) == Some(m1);
            assert(ps1.contains(ps1[i1]));
            assert(ps2.to_multiset().count(ps1[i1]) > 0);
            assert(ps2.contains(ps1[i1]));
            let j = choose|j: int| 0 <= j < ps2.len() && ps2[j] == ps1[i1];
            assert(pattern_matches(ps2[j], text));
        },
        (None, Some(m2)) => {
            let i2 = choose|i: int|
                0 <= i < ps2.len() && #[trigger] pattern_matches(ps2[i], text)
                    && spec_pattern_match(ps2[i], text) == Some(m2);
            assert(ps2.contains(ps2[i2]));
            assert(ps1.to_multiset().count(ps2[i2]) > 0);
            assert(ps1.contains(ps2[i2]));
            let j = choose|j: int| 0 <= j < ps1.len() && ps1[j] == ps2[i2];
            assert(pattern_matches(ps1[j], text));
        },
        (None, None) => {},
    }
}

/// Law: extractor entries merge by identity tag alone, and the earliest
/// insert fixes the entry's extractor.
///
/// Inserting a pattern whose first token is an extractor of a kind already
/// present at a level adds no entry and touches no other entry: the existing
/// entry of that kind keeps its extractor — configuration differences
/// (character classes, length windows, end markers) do not separate entries,
/// so the first-inserted configuration governs matching for every pattern
/// sharing the entry — and only its terminal pattern or child is extended,
/// the terminal being overwritten when the new pattern ends here.
pub proof fn lemma_dedup_by_kind(t: TableModel, tokens: Seq<TokenModel>, id: Seq<char>)
    requires
        tokens.len() > 0,
        tokens[0] is Parser,
        exists|q: int|
            0 <= q < t.pars.len() && spec_parser_kind((#[trigger] t.pars[q]).parser)
                == spec_parser_kind(tokens[0]->Parser_0),
    ensures
        spec_insert(t, tokens, id).lits == t.lits,
        spec_insert(t, tokens, id).pars.len() == t.pars.len(),
        ({
            let q = find_kind(t.pars, spec_parser_kind(tokens[0]->Parser_0));
            &&& 0 <= q < t.pars.len()
            &&& spec_insert(t, tokens, id).pars[q].parser == t.pars[q].parser
            &&& (tokens.len() == 1 ==> spec_insert(t, tokens, id).pars[q].terminal == Some(id))
            &&& forall|i: int|
                0 <= i < t.pars.len() && i != q ==> spec_insert(t, tokens, id).pars[i] == t.pars[i]
        }),
{
    let k = spec_parser_kind(tokens[0]->Parser_0);
    lemma_find_kind(t.pars, k);
    let q = find_kind(t.pars, k);
    assert(q < t.pars.len()) by {
        if q == t.pars.len() {
            let w = choose|w: int|
                0 <= w < t.pars.len() && spec_parser_kind((#[trigger] t.pars[w]).parser) == k;
            assert(spec_parser_kind(t.pars[w].parser) != k);
        }
    }
    if tokens.len() == 1 {
        assert(tokens.drop_first().len() == 0);
    }
}

/// The index built by inserting each of `ps` in turn, starting from `t`.
pub open spec fn insert_all(t: TableModel, ps: Seq<PatternModel>) -> TableModel
    decreases ps.len(),
{
    if ps.len() == 0 {
        t
    } else {
        insert_all(spec_insert(t, ps[0].tokens, ps[0].uuid), ps.drop_first())
    }
}

/// Every pattern consists of exactly one token.
pub open spec fn single_tokens(ps: Seq<PatternModel>) -> bool {
    forall|k: int| 0 <= k < ps.len() ==> (#[trigger] ps[k]).tokens.len() == 1
}

pub open spec fn is_lit(p: PatternModel) -> bool {
    p.tokens[0] is Literal
}

pub open spec fn lit_of(p: PatternModel) -> Seq<char> {
    p.tokens[0]->Literal_0
}

pub open spec fn par_of(p: PatternModel) -> crate::parsers::ParserModel {
    p.tokens[0]->Parser_0
}

/// No two patterns share a literal text or an extractor identity tag: the
/// "no shared literal/parser prefixes" premise, for single-token patterns.
pub open spec fn set_distinct(ps: Seq<PatternModel>) -> bool {
    forall|i: int, j: int|
        0 <= i < j < ps.len() ==> {
            &&& (is_lit(#[trigger] ps[i]) && is_lit(#[trigger] ps[j]) ==> lit_of(ps[i]) != lit_of(
                ps[j],
            ))
            &&& (!is_lit(ps[i]) && !is_lit(ps[j]) ==> spec_parser_kind(par_of(ps[i]))
                != spec_parser_kind(par_of(ps[j])))
        }
}

/// The entry a single-literal pattern leaves in a fresh index.
pub open spec fn made_lit(p: PatternModel) -> LitEntryModel {
    LitEntryModel { literal: lit_of(p), terminal: Some(p.uuid), child: None }
}

/// The entry a single-extractor pattern leaves in a fresh index.
pub open spec fn made_par(p: PatternModel) -> ParserEntryModel {
    ParserEntryModel { parser: par_of(p), terminal: Some(p.uuid), child: None }
}

/// The table holds this literal entry somewhere.
pub open spec fn has_lit_entry(r: TableModel, e: LitEntryModel) -> bool {
    exists|i: int| 0 <= i < r.lits.len() && r.lits[i] == e
}

/// The table holds this extractor entry somewhere.
pub open spec fn has_par_entry(r: TableModel, e: ParserEntryModel) -> bool {
    exists|i: int| 0 <= i < r.pars.len() && r.pars[i] == e
}

/// The table's entries do not collide with the patterns still to be
/// inserted.
spec fn disjoint_from(t: TableModel, ps: Seq<PatternModel>) -> bool {
    &&& forall|i: int, k: int|
        0 <= i < t.lits.len() && 0 <= k < ps.len() && is_lit(#[trigger] ps[k]) ==> (
        #[trigger] t.lits[i]).literal != lit_of(ps[k])
    &&& forall|i: int, k: int|
        0 <= i < t.pars.len() && 0 <= k < ps.len() && !is_lit(#[trigger] ps[k])
            ==> spec_parser_kind((#[trigger] t.pars[i]).parser) != spec_parser_kind(par_of(ps[k]))
}

/// Shape of one single-literal-pattern insert: the new entry joins the
/// sorted list at position `p`, everything else stays.
spec fn lit_step(t: TableModel, t1: TableModel, p0: PatternModel, p: int) -> bool {
    &&& 0 <= p <= t.lits.len()
    &&& t1.pars == t.pars
    &&& t1.lits.len() == t.lits.len() + 1
    &&& t1.lits[p] == made_lit(p0)
    &&& forall|i: int| 0 <= i < p ==> t1.lits[i] == t.lits[i]
    &&& forall|i: int| p < i < t1.lits.len() ==> t1.lits[i] == t.lits[i - 1]
}

/// Shape of one single-extractor-pattern insert: the new entry is appended.
spec fn par_step(t: TableModel, t1: TableModel, p0: PatternModel) -> bool {
    &&& t1.lits == t.lits
    &&& t1.pars == t.pars.push(made_par(p0))
}

proof fn lemma_insert_step_lit(t: TableModel, p0: PatternModel)
    requires
        t.wf(),
        p0.tokens.len() == 1,
        is_lit(p0),
        forall|i: int| 0 <= i < t.lits.len() ==> (#[trigger] t.lits[i]).literal != lit_of(p0),
    ensures
        spec_insert(t, p0.tokens, p0.uuid).wf(),
        lit_step(t, spec_insert(t, p0.tokens, p0.uuid), p0, count_lt(t.lits, lit_of(p0))),
{
    crate::suffix::lemma_spec_insert_wf(t, p0.tokens, p0.uuid);
    assert(p0.tokens.drop_first() =~= Seq::<TokenModel>::empty());
    let l = lit_of(p0);
    let p = count_lt(t.lits, l);
    lemma_count_lt_bounds(t.lits, l);
    assert(!(0 <= p < t.lits.len() && t.lits[p].literal == l));
    t.lits.insert_ensures(p, made_lit(p0));
    let t1 = spec_insert(t, p0.tokens, p0.uuid);
    assert(t1.lits == t.lits.insert(p, made_lit(p0)));
}

proof fn lemma_insert_step_par(t: TableModel, p0: PatternModel)
    requires
        t.wf(),
        p0.tokens.len() == 1,
        !is_lit(p0),
        forall|i: int|
            0 <= i < t.pars.len() ==> spec_parser_kind((#[trigger] t.pars[i]).parser)
                != spec_parser_kind(par_of(p0)),
    ensures
        spec_insert(t, p0.tokens, p0.uuid).wf(),
        par_step(t, spec_insert(t, p0.tokens, p0.uuid), p0),
{
    crate::suffix::lemma_spec_insert_wf(t, p0.tokens, p0.uuid);
    assert(p0.tokens.drop_first() =~= Seq::<TokenModel>::empty());
    let k = spec_parser_kind(par_of(p0));
    let q = find_kind(t.pars, k);
    lemma_find_kind(t.pars, k);
    assert(!(0 <= q < t.pars.len()));
}

/// One step keeps the remaining patterns insertable: the stepped table is
/// well-formed and still collides with none of them.
proof fn lemma_step_side_conditions(
    t: TableModel,
    t1: TableModel,
    ps: Seq<PatternModel>,
    p: int,
)
    requires
        ps.len() > 0,
        single_tokens(ps),
        set_distinct(ps),
        disjoint_from(t, ps),
        is_lit(ps[0]) ==> lit_step(t, t1, ps[0], p),
        !is_lit(ps[0]) ==> par_step(t, t1, ps[0]),
    ensures
        single_tokens(ps.drop_first()),
        set_distinct(ps.drop_first()),
        disjoint_from(t1, ps.drop_first()),
{
    let p0 = ps[0];
    let rest = ps.drop_first();
    assert forall|i: int, k: int|
        0 <= i < t1.lits.len() && 0 <= k < rest.len() && is_lit(#[trigger] rest[k]) implies (
    #[trigger] t1.lits[i]).literal != lit_of(rest[k]) by {
        assert(rest[k] == ps[k + 1]);
        if is_lit(p0) {
            if i < p {
            } else if i == p {
            } else {
                assert(t1.lits[i] == t.lits[i - 1]);
            }
        }
    }
    assert forall|i: int, k: int|
        0 <= i < t1.pars.len() && 0 <= k < rest.len() && !is_lit(#[trigger] rest[k])
        implies spec_parser_kind((#[trigger] t1.pars[i]).parser) != spec_parser_kind(
        par_of(rest[k]),
    ) by {
        assert(rest[k] == ps[k + 1]);
        if !is_lit(p0) && i == t1.pars.len() - 1 {
            assert(t1.pars[i] == made_par(p0));
        }
    }
    assert forall|k: int| 0 <= k < rest.len() implies (#[trigger] rest[k]).tokens.len() == 1 by {
        assert(rest[k] == ps[k + 1]);
    }
    assert forall|i: int, j: int| 0 <= i < j < rest.len() implies {
        &&& (is_lit(#[trigger] rest[i]) && is_lit(#[trigger] rest[j]) ==> lit_of(rest[i])
            != lit_of(rest[j]))
        &&& (!is_lit(rest[i]) && !is_lit(rest[j]) ==> spec_parser_kind(par_of(rest[i]))
            != spec_parser_kind(par_of(rest[j])))
    } by {
        assert(rest[i] == ps[i + 1]);
        assert(rest[j] == ps[j + 1]);
    }
}

/// Entries traced back through one step: what came from the stepped table or
/// the remaining patterns came from the original table or the full set.
proof fn lemma_combine_lits_source(
    t: TableModel,
    t1: TableModel,
    ps: Seq<PatternModel>,
    r: TableModel,
    p: int,
)
    requires
        ps.len() > 0,
        is_lit(ps[0]) ==> lit_step(t, t1, ps[0], p),
        !is_lit(ps[0]) ==> par_step(t, t1, ps[0]),
        forall|i: int|
            0 <= i < r.lits.len() ==> (exists|j: int|
                0 <= j < t1.lits.len() && r.lits[i] == t1.lits[j]) || (exists|k: int|
                0 <= k < ps.drop_first().len() && is_lit(ps.drop_first()[k]) && #[trigger] r.lits[i]
                    == made_lit(ps.drop_first()[k])),
    ensures
        forall|i: int|
            0 <= i < r.lits.len() ==> (exists|j: int|
                0 <= j < t.lits.len() && r.lits[i] == t.lits[j]) || (exists|k: int|
                0 <= k < ps.len() && is_lit(ps[k]) && #[trigger] r.lits[i] == made_lit(ps[k])),
{
    let rest = ps.drop_first();
    assert forall|i: int| 0 <= i < r.lits.len() implies (exists|j: int|
        0 <= j < t.lits.len() && r.lits[i] == t.lits[j]) || (exists|k: int|
        0 <= k < ps.len() && is_lit(ps[k]) && #[trigger] r.lits[i] == made_lit(ps[k])) by {
        if exists|j: int| 0 <= j < t1.lits.len() && r.lits[i] == t1.lits[j] {
            let j = choose|j: int| 0 <= j < t1.lits.len() && r.lits[i] == t1.lits[j];
            if is_lit(ps[0]) {
                if j < p {
                    assert(r.lits[i] == t.lits[j]);
                } else if j == p {
                    assert(r.lits[i] == made_lit(ps[0]));
                } else {
                    assert(r.lits[i] == t.lits[j - 1]);
                }
            } else {
                assert(r.lits[i] == t.lits[j]);
            }
        } else {
            let k = choose|k: int|
                0 <= k < rest.len() && is_lit(rest[k]) && r.lits[i] == made_lit(rest[k]);
            assert(rest[k] == ps[k + 1]);
        }
    }
}

proof fn lemma_combine_pars_source(
    t: TableModel,
    t1: TableModel,
    ps: Seq<PatternModel>,
    r: TableModel,
    p: int,
)
    requires
        ps.len() > 0,
        is_lit(ps[0]) ==> lit_step(t, t1, ps[0], p),
        !is_lit(ps[0]) ==> par_step(t, t1, ps[0]),
        forall|i: int|
            0 <= i < r.pars.len() ==> (exists|j: int|
                0 <= j < t1.pars.len() && r.pars[i] == t1.pars[j]) || (exists|k: int|
                0 <= k < ps.drop_first().len() && !is_lit(ps.drop_first()[k]) && #[trigger] r.pars[i]
                    == made_par(ps.drop_first()[k])),
    ensures
        forall|i: int|
            0 <= i < r.pars.len() ==> (exists|j: int|
                0 <= j < t.pars.len() && r.pars[i] == t.pars[j]) || (exists|k: int|
                0 <= k < ps.len() && !is_lit(ps[k]) && #[trigger] r.pars[i] == made_par(ps[k])),
{
    let rest = ps.drop_first();
    assert forall|i: int| 0 <= i < r.pars.len() implies (exists|j: int|
        0 <= j < t.pars.len() && r.pars[i] == t.pars[j]) || (exists|k: int|
        0 <= k < ps.len() && !is_lit(ps[k]) && #[trigger] r.pars[i] == made_par(ps[k])) by {
        if exists|j: int| 0 <= j < t1.pars.len() && r.pars[i] == t1.pars[j] {
            let j = choose|j: int| 0 <= j < t1.pars.len() && r.pars[i] == t1.pars[j];
            if !is_lit(ps[0]) {
                if j == t1.pars.len() - 1 {
                    assert(r.pars[i] == made_par(ps[0]));
                } else {
                    assert(r.pars[i] == t.pars[j]);
                }
            } else {
                assert(r.pars[i] == t.pars[j]);
            }
        } else {
            let k = choose|k: int|
                0 <= k < rest.len() && !is_lit(rest[k]) && r.pars[i] == made_par(rest[k]);
            assert(rest[k] == ps[k + 1]);
        }
    }
}

/// Every pattern of the set got its entry: the first pattern's entry comes
/// from the step, the rest keep theirs.
proof fn lemma_combine_complete(
    t: TableModel,
    t1: TableModel,
    ps: Seq<PatternModel>,
    r: TableModel,
    p: int,
)
    requires
        ps.len() > 0,
        is_lit(ps[0]) ==> lit_step(t, t1, ps[0], p),
        !is_lit(ps[0]) ==> par_step(t, t1, ps[0]),
        forall|j: int| 0 <= j < t1.lits.len() ==> has_lit_entry(r, #[trigger] t1.lits[j]),
        forall|j: int| 0 <= j < t1.pars.len() ==> has_par_entry(r, #[trigger] t1.pars[j]),
        forall|k: int|
            0 <= k < ps.drop_first().len() && is_lit(#[trigger] ps.drop_first()[k])
                ==> has_lit_entry(r, made_lit(ps.drop_first()[k])),
        forall|k: int|
            0 <= k < ps.drop_first().len() && !is_lit(#[trigger] ps.drop_first()[k])
                ==> has_par_entry(r, made_par(ps.drop_first()[k])),
    ensures
        forall|k: int|
            0 <= k < ps.len() && is_lit(#[trigger] ps[k]) ==> has_lit_entry(r, made_lit(ps[k])),
        forall|k: int|
            0 <= k < ps.len() && !is_lit(#[trigger] ps[k]) ==> has_par_entry(r, made_par(ps[k])),
{
    let rest = ps.drop_first();
    assert forall|k: int| 0 <= k < ps.len() && is_lit(#[trigger] ps[k]) implies has_lit_entry(
        r,
        made_lit(ps[k]),
    ) by {
        if k == 0 {
            assert(t1.lits[p] == made_lit(ps[0]));
        } else {
            assert(rest[k - 1] == ps[k]);
            assert(is_lit(rest[k - 1]));
        }
    }
    assert forall|k: int| 0 <= k < ps.len() && !is_lit(#[trigger] ps[k]) implies has_par_entry(
        r,
        made_par(ps[k]),
    ) by {
        if k == 0 {
            assert(t1.pars[t1.pars.len() - 1] == made_par(ps[0]));
        } else {
            assert(rest[k - 1] == ps[k]);
            assert(!is_lit(rest[k - 1]));
        }
    }
}

/// Inserting distinct single-token patterns adds exactly one entry per
/// pattern: every entry of the result is an old entry or the entry of one
/// pattern, every old entry survives, and every pattern got its entry.
proof fn lemma_insert_all_entries(t: TableModel, ps: Seq<PatternModel>)
    requires
        t.wf(),
        single_tokens(ps),
        set_distinct(ps),
        disjoint_from(t, ps),
    ensures
        insert_all(t, ps).wf(),
        forall|i: int|
            0 <= i < insert_all(t, ps).lits.len() ==> (exists|j: int|
                0 <= j < t.lits.len() && insert_all(t, ps).lits[i] == t.lits[j]) || (exists|k: int|
                0 <= k < ps.len() && is_lit(ps[k]) && #[trigger] insert_all(t, ps).lits[i]
                    == made_lit(ps[k])),
        forall|j: int|
            0 <= j < t.lits.len() ==> has_lit_entry(insert_all(t, ps), #[trigger] t.lits[j]),
        forall|k: int|
            0 <= k < ps.len() && is_lit(#[trigger] ps[k]) ==> has_lit_entry(
                insert_all(t, ps),
                made_lit(ps[k]),
            ),
        forall|i: int|
            0 <= i < insert_all(t, ps).pars.len() ==> (exists|j: int|
                0 <= j < t.pars.len() && insert_all(t, ps).pars[i] == t.pars[j]) || (exists|k: int|
                0 <= k < ps.len() && !is_lit(ps[k]) && #[trigger] insert_all(t, ps).pars[i]
                    == made_par(ps[k])),
        forall|j: int|
            0 <= j < t.pars.len() ==> has_par_entry(insert_all(t, ps), #[trigger] t.pars[j]),
        forall|k: int|
            0 <= k < ps.len() && !is_lit(#[trigger] ps[k]) ==> has_par_entry(
                insert_all(t, ps),
                made_par(ps[k]),
            ),
    decreases ps.len(),
{
    if ps.len() == 0 {
    } else {
        let p0 = ps[0];
        let rest = ps.drop_first();
        let t1 = spec_insert(t, p0.tokens, p0.uuid);
        let p = count_lt(t.lits, lit_of(p0));
        if is_lit(p0) {
            lemma_insert_step_lit(t, p0);
        } else {
            lemma_insert_step_par(t, p0);
        }
        lemma_step_side_conditions(t, t1, ps, p);
        lemma_insert_all_entries(t1, rest);
        let r = insert_all(t, ps);
        assert(r == insert_all(t1, rest));
        lemma_combine_lits_source(t, t1, ps, r, p);
        lemma_combine_pars_source(t, t1, ps, r, p);
        lemma_combine_complete(t, t1, ps, r, p);
        lemma_combine_survive(t, t1, ps, r, p);
    }
}

/// Entries of the original table survive the whole build.
proof fn lemma_combine_survive(
    t: TableModel,
    t1: TableModel,
    ps: Seq<PatternModel>,
    r: TableModel,
    p: int,
)
    requires
        ps.len() > 0,
        is_lit(ps[0]) ==> lit_step(t, t1, ps[0], p),
        !is_lit(ps[0]) ==> par_step(t, t1, ps[0]),
        forall|j: int| 0 <= j < t1.lits.len() ==> has_lit_entry(r, #[trigger] t1.lits[j]),
        forall|j: int| 0 <= j < t1.pars.len() ==> has_par_entry(r, #[trigger] t1.pars[j]),
    ensures
        forall|j: int| 0 <= j < t.lits.len() ==> has_lit_entry(r, #[trigger] t.lits[j]),
        forall|j: int| 0 <= j < t.pars.len() ==> has_par_entry(r, #[trigger] t.pars[j]),
{
    assert forall|j: int| 0 <= j < t.lits.len() implies has_lit_entry(
        r,
        #[trigger] t.lits[j],
    ) by {
        if is_lit(ps[0]) {
            if j < p {
                assert(t1.lits[j] == t.lits[j]);
                assert(has_lit_entry(r, t1.lits[j]));
            } else {
                assert(t1.lits[j + 1] == t.lits[j]);
                assert(has_lit_entry(r, t1.lits[j + 1]));
            }
        } else {
            assert(t1.lits[j] == t.lits[j]);
            assert(has_lit_entry(r, t1.lits[j]));
        }
    }
    assert forall|j: int| 0 <= j < t.pars.len() implies has_par_entry(
        r,
        #[trigger] t.pars[j],
    ) by {
        assert(t1.pars[j] == t.pars[j]);
        assert(has_par_entry(r, t1.pars[j]));
    }
}

/// What a single-token pattern does under the sequential strategy: a literal
/// accepts exactly its own text; an extractor must consume the whole input.
proof fn lemma_single_pattern_match(p: PatternModel, text: Seq<char>)
    requires
        p.tokens.len() == 1,
    ensures
        is_lit(p) ==> spec_pattern_match(p, text) == (if text == lit_of(p) {
            Some(MatchModel { pattern: p.uuid, fields: Map::<Seq<char>, Seq<char>>::empty() })
        } else {
            Option::<MatchModel>::None
        }),
        !is_lit(p) ==> spec_pattern_match(p, text) == (match spec_parser_parse(par_of(p), text) {
            Some(n) => if n == text.len() {
                Some(
                    MatchModel {
                        pattern: p.uuid,
                        fields: crate::suffix::spec_capture(
                            Map::empty(),
                            spec_parser_name(par_of(p)),
                            text.take(n),
                        ),
                    },
                )
            } else {
                Option::<MatchModel>::None
            },
            None => Option::<MatchModel>::None,
        }),
{
    reveal_with_fuel(crate::linear::spec_walk, 2);
    assert(p.tokens.drop_first() =~= Seq::<TokenModel>::empty());
    match p.tokens[0] {
        TokenModel::Literal(l) => {
            if crate::text::starts_with(text, l) {
                assert(text.skip(l.len() as int).len() == text.len() - l.len());
                if l.len() == text.len() {
                    assert(text =~= l) by {
                        assert(text.subrange(0, l.len() as int) =~= text);
                    }
                }
                if text == lit_of(p) {
                    assert(text.skip(l.len() as int).len() == 0);
                }
            } else {
                if text == lit_of(p) {
                    assert(text.subrange(0, l.len() as int) =~= l);
                }
            }
        },
        TokenModel::Parser(pm) => {
            lemma_parser_parse_bounds(pm, text);
            match spec_parser_parse(pm, text) {
                Some(n) => {
                    assert(text.skip(n).len() == text.len() - n);
                },
                None => {},
            }
        },
    }
}

/// A single-extractor pattern behaves the same as the index entry it leaves:
/// both demand that the extractor consume the whole input, and both report
/// the pattern with the one capture.
proof fn lemma_made_par_entry(p: PatternModel, text: Seq<char>)
    requires
        p.tokens.len() == 1,
        !is_lit(p),
    ensures
        spec_parser_entry_parse(made_par(p), text) == spec_pattern_match(p, text),
{
    lemma_single_pattern_match(p, text);
    lemma_parser_parse_bounds(par_of(p), text);
    match spec_parser_parse(par_of(p), text) {
        Some(n) => {
            assert(text.skip(n).len() == text.len() - n);
        },
        None => {},
    }
}

proof fn lemma_try_parsers_none(pars: Seq<ParserEntryModel>, text: Seq<char>)
    requires
        forall|j: int|
            0 <= j < pars.len() ==> spec_parser_entry_parse(#[trigger] pars[j], text) is None,
    ensures
        spec_try_parsers(pars, text) is None,
    decreases pars.len(),
{
    if pars.len() > 0 {
        let rest = pars.subrange(1, pars.len() as int);
        assert forall|j: int|
            0 <= j < rest.len() implies spec_parser_entry_parse(#[trigger] rest[j], text)
            is None by {
            assert(rest[j] == pars[j + 1]);
        }
        lemma_try_parsers_none(rest, text);
    }
}

proof fn lemma_try_parsers_single(pars: Seq<ParserEntryModel>, text: Seq<char>, j: int)
    requires
        0 <= j < pars.len(),
        spec_parser_entry_parse(pars[j], text) is Some,
        forall|j2: int|
            0 <= j2 < pars.len() && j2 != j ==> spec_parser_entry_parse(
                #[trigger] pars[j2],
                text,
            ) is None,
    ensures
        spec_try_parsers(pars, text) == spec_parser_entry_parse(pars[j], text),
    decreases pars.len(),
{
    if j == 0 {
    } else {
        let rest = pars.subrange(1, pars.len() as int);
        assert forall|j2: int|
            0 <= j2 < rest.len() && j2 != j - 1 implies spec_parser_entry_parse(
            #[trigger] rest[j2],
            text,
        ) is None by {
            assert(rest[j2] == pars[j2 + 1]);
        }
        assert(rest[j - 1] == pars[j]);
        lemma_try_parsers_single(rest, text, j - 1);
    }
}

/// Law: strategy equivalence on unambiguous pattern sets.
///
/// For a set of one-token patterns with no shared literal texts or extractor
/// tags, no empty literal, and an input that at most one pattern accepts,
/// the prefix-indexed matcher built from the set returns the same pattern
/// identity and the same captured fields as the sequential matcher, provided
/// the input equals one of the literals, or shares no prefix with any of
/// them, or the set holds no extractor pattern at all.
///
/// The input condition draws the line this index's longest-common-prefix
/// approximation imposes when literal and extractor patterns mix: an input
/// that shares a prefix with a stored literal is committed to the literal
/// path and never reaches the extractor entries, while the sequential
/// matcher still tries every pattern.  Such inputs are excluded here.
#[verifier::rlimit(60)]
pub proof fn lemma_strategy_equivalence(ps: Seq<PatternModel>, text: Seq<char>)
    requires
        single_tokens(ps),
        set_distinct(ps),
        forall|k: int| 0 <= k < ps.len() && is_lit(#[trigger] ps[k]) ==> lit_of(ps[k]).len() > 0,
        forall|i: int, j: int|
            0 <= i < j < ps.len() ==> !(pattern_matches(#[trigger] ps[i], text)
                && pattern_matches(#[trigger] ps[j], text)),
        (exists|k: int| 0 <= k < ps.len() && is_lit(#[trigger] ps[k]) && lit_of(ps[k]) == text)
            || (forall|k: int|
            0 <= k < ps.len() && is_lit(#[trigger] ps[k]) ==> common_prefix(
                lit_of(ps[k]),
                text,
            ) == 0) || (forall|k: int| 0 <= k < ps.len() ==> is_lit(#[trigger] ps[k])),
    ensures
        spec_table_parse(insert_all(TableModel::empty(), ps), text) == spec_linear_parse(ps, text),
{
    let t = insert_all(TableModel::empty(), ps);
    lemma_insert_all_entries(TableModel::empty(), ps);
    lemma_linear_parse_first_match(ps, text);
    assert forall|k: int| 0 <= k < ps.len() implies (#[trigger] ps[k]).tokens.len() == 1 by {}
    let p = count_lt(t.lits, text);
    lemma_count_lt_sorted(t.lits, text);
    if exists|k: int| 0 <= k < ps.len() && is_lit(#[trigger] ps[k]) && lit_of(ps[k]) == text {
        let k0 = choose|k: int|
            0 <= k < ps.len() && is_lit(#[trigger] ps[k]) && lit_of(ps[k]) == text;
        let i0 = choose|i: int| 0 <= i < t.lits.len() && t.lits[i] == made_lit(ps[k0]);
        assert(t.lits[i0].literal == text);
        assert(p == i0) by {
            lemma_lex_lt_irreflexive(text);
            if i0 < p {
                assert(lex_lt(t.lits[i0].literal, text));
            }
            if i0 > p {
                assert(lex_lt(t.lits[p].literal, t.lits[i0].literal));
            }
        }
        assert(spec_lcp(t, text) == Some((i0, text.len() as int)));
        assert(spec_table_parse(t, text) == Some(
            MatchModel { pattern: ps[k0].uuid, fields: Map::<Seq<char>, Seq<char>>::empty() },
        ));
        lemma_single_pattern_match(ps[k0], text);
        assert(pattern_matches(ps[k0], text));
        let m = spec_linear_parse(ps, text);
        assert(m is Some);
        let i1 = choose|i: int|
            0 <= i < ps.len() && #[trigger] pattern_matches(ps[i], text) && spec_pattern_match(
                ps[i],
                text,
            ) == Some(m->Some_0);
        assert(i1 == k0);
    } else if forall|k: int|
        0 <= k < ps.len() && is_lit(#[trigger] ps[k]) ==> common_prefix(lit_of(ps[k]), text)
            == 0 {
        assert forall|i: int| 0 <= i < t.lits.len() implies common_prefix(
            (#[trigger] t.lits[i]).literal,
            text,
        ) == 0 && t.lits[i].literal != text by {
            let k = choose|k: int|
                0 <= k < ps.len() && is_lit(ps[k]) && t.lits[i] == made_lit(ps[k]);
            lemma_common_prefix_bounds(lit_of(ps[k]), text);
            if t.lits[i].literal == text {
                assert(lit_of(ps[k]) == text);
            }
        }
        assert(spec_lcp(t, text) is None) by {
            if 0 <= p < t.lits.len() {
                assert(t.lits[p].literal != text);
            }
        }
        assert(spec_table_parse(t, text) == spec_try_parsers(t.pars, text));
        assert forall|k: int|
            0 <= k < ps.len() && is_lit(#[trigger] ps[k]) implies !pattern_matches(
            ps[k],
            text,
        ) by {
            lemma_single_pattern_match(ps[k], text);
            if text == lit_of(ps[k]) {
                lemma_common_prefix_bounds(lit_of(ps[k]), text);
                crate::text::lemma_common_prefix_is(lit_of(ps[k]), text, lit_of(ps[k]).len() as int);
            }
        }
        match spec_linear_parse(ps, text) {
            Some(m) => {
                let k1 = choose|i: int|
                    0 <= i < ps.len() && #[trigger] pattern_matches(ps[i], text)
                        && spec_pattern_match(ps[i], text) == Some(m);
                assert(!is_lit(ps[k1]));
                let j1 = choose|i: int| 0 <= i < t.pars.len() && t.pars[i] == made_par(ps[k1]);
                lemma_made_par_entry(ps[k1], text);
                assert(spec_parser_entry_parse(t.pars[j1], text) == Some(m));
                assert forall|j2: int|
                    0 <= j2 < t.pars.len() && j2 != j1 implies spec_parser_entry_parse(
                    #[trigger] t.pars[j2],
                    text,
                ) is None by {
                    let k2 = choose|k: int|
                        0 <= k < ps.len() && !is_lit(ps[k]) && t.pars[j2] == made_par(ps[k]);
                    lemma_made_par_entry(ps[k2], text);
                    if k2 == k1 {
                        assert(t.pars[j2].parser == t.pars[j1].parser);
                        assert(spec_parser_kind(t.pars[j2].parser) == spec_parser_kind(
                            t.pars[j1].parser,
                        ));
                        if j2 < j1 {
                            assert(false);
                        } else {
                            assert(false);
                        }
                    } else {
                        assert(!pattern_matches(ps[k2], text));
                    }
                }
                lemma_try_parsers_single(t.pars, text, j1);
            },
            None => {
                assert forall|j: int|
                    0 <= j < t.pars.len() implies spec_parser_entry_parse(
                    #[trigger] t.pars[j],
                    text,
                ) is None by {
                    let k = choose|k: int|
                        0 <= k < ps.len() && !is_lit(ps[k]) && t.pars[j] == made_par(ps[k]);
                    lemma_made_par_entry(ps[k], text);
                    assert(!pattern_matches(ps[k], text));
                }
                lemma_try_parsers_none(t.pars, text);
            },
        }
    } else {
        // Every pattern is a single literal.  No literal equals the input
        // (the first branch would have taken it), so neither strategy
        // matches: the sequential walk rejects every pattern, and the index
        // holds no extractor entry while its literal entries demand full
        // consumption of their text.
        assert(forall|k: int| 0 <= k < ps.len() ==> is_lit(#[trigger] ps[k]));
        assert(t.pars.len() == 0) by {
            if t.pars.len() > 0 {
                let e0 = t.pars[0];
                if exists|k: int|
                    0 <= k < ps.len() && !is_lit(ps[k]) && t.pars[0] == made_par(ps[k]) {
                    let k = choose|k: int|
                        0 <= k < ps.len() && !is_lit(ps[k]) && t.pars[0] == made_par(ps[k]);
                }
            }
        }
        assert forall|k: int| 0 <= k < ps.len() implies !pattern_matches(
            #[trigger] ps[k],
            text,
        ) by {
            lemma_single_pattern_match(ps[k], text);
        }
        assert(spec_linear_parse(ps, text) is None);
        match spec_lcp(t, text) {
            Some((pos, len)) => {
                lemma_spec_lcp_bounds(t, text);
                let k = choose|k: int|
                    0 <= k < ps.len() && is_lit(ps[k]) && t.lits[pos] == made_lit(ps[k]);
                assert(t.lits[pos].literal != text);
                lemma_common_prefix_bounds(t.lits[pos].literal, text);
                if len == text.len() {
                    if len == t.lits[pos].literal.len() {
                        assert(t.lits[pos].literal =~= text);
                    }
                    assert(len != t.lits[pos].literal.len());
                } else {
                    assert(t.lits[pos].child is None);
                }
                assert(spec_table_parse(t, text) is None);
            },
            None => {
                assert(spec_table_parse(t, text) == spec_try_parsers(t.pars, text));
            },
        }
    }
}

} // verus!
