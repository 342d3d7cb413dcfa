//! Character-sequence primitives shared by the extractors and the matchers:
//! common-prefix length, lexicographic order on character sequences, and
//! first-occurrence substring search.

use vstd::prelude::*;

verus! {

/// Length of the longest common prefix of `a` and `b`.
pub open spec fn common_prefix(a: Seq<char>, b: Seq<char>) -> nat
    decreases a.len(),
{
    if a.len() == 0 || b.len() == 0 || a[0] != b[0] {
        0
    } else {
        1 + common_prefix(a.drop_first(), b.drop_first())
    }
}

/// `n` is the common-prefix length of `a` and `b` exactly when the first `n`
/// characters agree and either sequence ends or disagrees right after them.
pub open spec fn is_common_prefix_len(a: Seq<char>, b: Seq<char>, n: int) -> bool {
    &&& 0 <= n <= a.len()
    &&& n <= b.len()
    &&& forall|j: int| 0 <= j < n ==> a[j] == b[j]
    &&& (n == a.len() || n == b.len() || a[n] != b[n])
}

pub proof fn lemma_common_prefix_bounds(a: Seq<char>, b: Seq<char>)
    ensures
        is_common_prefix_len(a, b, common_prefix(a, b) as int),
    decreases a.len(),
{
    if a.len() == 0 || b.len() == 0 || a[0] != b[0] {
    } else {
        lemma_common_prefix_bounds(a.drop_first(), b.drop_first());
        let n = common_prefix(a, b) as int;
        assert forall|j: int| 0 <= j < n implies a[j] == b[j] by {
            if j > 0 {
                assert(a.drop_first()[j - 1] == a[j]);
                assert(b.drop_first()[j - 1] == b[j]);
            }
        }
        if n < a.len() && n < b.len() {
            assert(a.drop_first()[n - 1] == a[n]);
            assert(b.drop_first()[n - 1] == b[n]);
        }
    }
}

pub proof fn lemma_common_prefix_is(a: Seq<char>, b: Seq<char>, n: int)
    requires
        is_common_prefix_len(a, b, n),
    ensures
        common_prefix(a, b) == n,
    decreases a.len(),
{
    if n == 0 {
    } else {
        assert(a[0] == b[0]);
        assert forall|j: int| 0 <= j < n - 1 implies a.drop_first()[j] == b.drop_first()[j] by {
            assert(a[j + 1] == b[j + 1]);
        }
        if n - 1 < a.drop_first().len() && n - 1 < b.drop_first().len() {
            assert(a.drop_first()[n - 1] == a[n]);
            assert(b.drop_first()[n - 1] == b[n]);
        }
        lemma_common_prefix_is(a.drop_first(), b.drop_first(), n - 1);
    }
}

/// Longest common prefix of two text fragments, counted in characters.
pub fn common_prefix_len(a: &str, b: &str) -> (n: usize)
    ensures
        n == common_prefix(a@, b@),
{
    let alen = a.unicode_len();
    let blen = b.unicode_len();
    let mut i: usize = 0;
    loop
        invariant
            alen == a@.len(),
            blen == b@.len(),
            i <= alen,
            i <= blen,
            forall|j: int| 0 <= j < i ==> a@[j] == b@[j],
        ensures
            i <= a@.len(),
            i <= b@.len(),
            forall|j: int| 0 <= j < i ==> a@[j] == b@[j],
            i == a@.len() || i == b@.len() || a@[i as int] != b@[i as int],
        decreases alen - i,
    {
        if i >= alen || i >= blen {
            break;
        }
        let ca = a.get_char(i);
        let cb = b.get_char(i);
        if ca != cb {
            break;
        }
        i = i + 1;
    }
    proof {
        lemma_common_prefix_is(a@, b@, i as int);
    }
    i
}

/// Strict lexicographic order on character sequences, by code point, with a
/// proper prefix ordered before every extension of it.
pub open spec fn lex_lt(a: Seq<char>, b: Seq<char>) -> bool
    decreases a.len(),
{
    if b.len() == 0 {
        false
    } else if a.len() == 0 {
        true
    } else if a[0] != b[0] {
        (a[0] as u32) < (b[0] as u32)
    } else {
        lex_lt(a.drop_first(), b.drop_first())
    }
}

/// The order decides at the first disagreement point, which is the common
/// prefix length.
pub proof fn lemma_lex_lt_by_prefix(a: Seq<char>, b: Seq<char>)
    ensures
        lex_lt(a, b) <==> {
            let n = common_prefix(a, b) as int;
            (n == a.len() && n < b.len()) || (n < a.len() && n < b.len() && (a[n] as u32) < (
            b[n] as u32))
        },
    decreases a.len(),
{
    lemma_common_prefix_bounds(a, b);
    if a.len() == 0 || b.len() == 0 || a[0] != b[0] {
    } else {
        lemma_lex_lt_by_prefix(a.drop_first(), b.drop_first());
        let n = common_prefix(a, b) as int;
        if n < a.len() && n < b.len() {
            assert(a.drop_first()[n - 1] == a[n]);
            assert(b.drop_first()[n - 1] == b[n]);
        }
    }
}

pub proof fn lemma_lex_lt_irreflexive(a: Seq<char>)
    ensures
        !lex_lt(a, a),
    decreases a.len(),
{
    if a.len() > 0 {
        lemma_lex_lt_irreflexive(a.drop_first());
    }
}

pub proof fn lemma_lex_lt_trichotomy(a: Seq<char>, b: Seq<char>)
    ensures
        lex_lt(a, b) || lex_lt(b, a) || a == b,
        lex_lt(a, b) ==> !lex_lt(b, a) && a != b,
        lex_lt(b, a) ==> !lex_lt(a, b) && a != b,
    decreases a.len(),
{
    lemma_lex_lt_irreflexive(a);
    if a.len() == 0 || b.len() == 0 || a[0] != b[0] {
        if a.len() == 0 && b.len() == 0 {
            assert(a =~= b);
        }
        if a.len() != 0 && b.len() != 0 && a[0] != b[0] {
            assert((a[0] as u32) != (b[0] as u32)) by {
                vstd::utf8::char_u32_cast(a[0], a[0] as u32);
                vstd::utf8::char_u32_cast(b[0], b[0] as u32);
            }
        }
    } else {
        lemma_lex_lt_trichotomy(a.drop_first(), b.drop_first());
        if a.drop_first() == b.drop_first() {
            assert forall|i: int| 0 <= i < a.len() implies a[i] == b[i] by {
                if i > 0 {
                    assert(a.drop_first()[i - 1] == b.drop_first()[i - 1]);
                }
            }
            assert(a =~= b);
        }
        if a == b {
            assert(a.drop_first() =~= b.drop_first());
        }
    }
}

pub proof fn lemma_lex_lt_transitive(a: Seq<char>, b: Seq<char>, c: Seq<char>)
    requires
        lex_lt(a, b),
        lex_lt(b, c),
    ensures
        lex_lt(a, c),
    decreases a.len() + b.len() + c.len(),
{
    if b.len() == 0 || c.len() == 0 {
    } else if a.len() == 0 {
    } else {
        if a[0] == b[0] && b[0] == c[0] {
            lemma_lex_lt_transitive(a.drop_first(), b.drop_first(), c.drop_first());
        }
    }
}

/// Three-way lexicographic comparison of two text fragments.
/// Returns a negative, zero, or positive flag in the manner of a comparator.
pub fn str_compare(a: &str, b: &str) -> (r: i32)
    ensures
        r == -1 || r == 0 || r == 1,
        r == -1 <==> lex_lt(a@, b@),
        r == 0 <==> a@ == b@,
        r == 1 <==> lex_lt(b@, a@),
{
    proof {
        lemma_common_prefix_bounds(a@, b@);
        lemma_lex_lt_by_prefix(a@, b@);
        lemma_lex_lt_by_prefix(b@, a@);
        lemma_lex_lt_trichotomy(a@, b@);
        lemma_common_prefix_is(b@, a@, common_prefix(a@, b@) as int);
    }
    let n = common_prefix_len(a, b);
    let alen = a.unicode_len();
    let blen = b.unicode_len();
    if n == alen && n == blen {
        proof {
            assert(a@ =~= b@);
        }
        0
    } else if n == alen {
        -1
    } else if n == blen {
        1
    } else {
        let ca = a.get_char(n);
        let cb = b.get_char(n);
        if (ca as u32) < (cb as u32) {
            -1
        } else {
            1
        }
    }
}

/// `v` begins with the fragment `p`.
pub open spec fn starts_with(v: Seq<char>, p: Seq<char>) -> bool {
    p.len() <= v.len() && v.subrange(0, p.len() as int) == p
}

pub fn str_starts_with(v: &str, p: &str) -> (r: bool)
    ensures
        r == starts_with(v@, p@),
{
    proof {
        lemma_common_prefix_bounds(v@, p@);
    }
    let n = common_prefix_len(v, p);
    let r = n == p.unicode_len();
    proof {
        if r {
            assert(v@.subrange(0, p@.len() as int) =~= p@);
        } else {
            if starts_with(v@, p@) {
                assert forall|j: int| 0 <= j < p@.len() implies v@[j] == p@[j] by {
                    assert(v@.subrange(0, p@.len() as int)[j] == v@[j]);
                }
                lemma_common_prefix_is(v@, p@, p@.len() as int);
            }
        }
    }
    r
}

/// The fragment `m` occurs in `v` at position `i`.
pub open spec fn occurs_at(m: Seq<char>, v: Seq<char>, i: int) -> bool {
    0 <= i && i + m.len() <= v.len() && v.subrange(i, i + m.len()) == m
}

/// Position of the first occurrence of `m` in `v` at or after `from`.
pub open spec fn first_occurrence_from(m: Seq<char>, v: Seq<char>, from: int) -> Option<int>
    decreases v.len() + 1 - from when 0 <= from
{
    if from + m.len() > v.len() {
        None
    } else if v.subrange(from, from + m.len()) == m {
        Some(from)
    } else {
        first_occurrence_from(m, v, from + 1)
    }
}

/// Position of the first occurrence of `m` in `v`, if any.
pub open spec fn first_occurrence(m: Seq<char>, v: Seq<char>) -> Option<int> {
    first_occurrence_from(m, v, 0)
}

pub proof fn lemma_first_occurrence_from(m: Seq<char>, v: Seq<char>, from: int)
    requires
        0 <= from,
    ensures
        match first_occurrence_from(m, v, from) {
            Some(i) => from <= i && occurs_at(m, v, i) && forall|j: int|
                from <= j < i ==> !occurs_at(m, v, j),
            None => forall|j: int| from <= j ==> !occurs_at(m, v, j),
        },
    decreases v.len() + 1 - from,
{
    if from + m.len() > v.len() {
        assert forall|j: int| from <= j implies !occurs_at(m, v, j) by {}
    } else if v.subrange(from, from + m.len()) == m {
    } else {
        lemma_first_occurrence_from(m, v, from + 1);
    }
}

fn occurs_at_exec(m: &str, v: &str, i: usize) -> (r: bool)
    requires
        i + m@.len() <= v@.len(),
    ensures
        r == occurs_at(m@, v@, i as int),
{
    let mlen = m.unicode_len();
    let vlen = v.unicode_len();
    let mut j: usize = 0;
    loop
        invariant
            mlen == m@.len(),
            vlen == v@.len(),
            i + mlen <= vlen,
            j <= mlen,
            forall|k: int| 0 <= k < j ==> v@[i + k] == m@[k],
        ensures
            j <= mlen,
            forall|k: int| 0 <= k < j ==> v@[i + k] == m@[k],
            j == mlen || v@[i + j] != m@[j as int],
        decreases mlen - j,
    {
        if j >= mlen {
            break;
        }
        let cv = v.get_char(i + j);
        let cm = m.get_char(j);
        if cv != cm {
            break;
        }
        j = j + 1;
    }
    if j == mlen {
        proof {
            assert(v@.subrange(i as int, i + m@.len()) =~= m@);
        }
        true
    } else {
        proof {
            if occurs_at(m@, v@, i as int) {
                assert(v@.subrange(i as int, i + m@.len())[j as int] == v@[i + j]);
            }
        }
        false
    }
}

/// Position of the first occurrence of the fragment `m` in `v`, if any.
pub fn find_first(m: &str, v: &str) -> (r: Option<usize>)
    ensures
        match r {
            Some(i) => first_occurrence(m@, v@) == Some(i as int),
            None => first_occurrence(m@, v@) is None,
        },
{
    let mlen = m.unicode_len();
    let vlen = v.unicode_len();
    if mlen > vlen {
        return None;
    }
    if mlen == 0 {
        proof {
            assert(v@.subrange(0, 0) =~= m@);
        }
        return Some(0);
    }
    let mut i: usize = 0;
    loop
        invariant
            mlen == m@.len(),
            vlen == v@.len(),
            1 <= mlen <= vlen,
            i <= vlen - mlen + 1,
            first_occurrence(m@, v@) == first_occurrence_from(m@, v@, i as int),
        decreases vlen - i,
    {
        if i > vlen - mlen {
            return None;
        }
        if occurs_at_exec(m, v, i) {
            proof {
                assert(v@.subrange(i as int, i + m@.len()) =~= m@);
            }
            return Some(i);
        }
        proof {
            if occurs_at(m@, v@, i as int) {
                assert(v@.subrange(i as int, i + m@.len()) =~= m@);
            }
        }
        i = i + 1;
    }
}

/// The set of characters of `s` contains `c`.
pub fn str_contains_char(s: &str, c: char) -> (r: bool)
    ensures
        r == s@.contains(c),
{
    let len = s.unicode_len();
    let mut i: usize = 0;
    while i < len
        invariant
            len == s@.len(),
            i <= len,
            forall|j: int| 0 <= j < i ==> s@[j] != c,
        decreases len - i,
    {
        if s.get_char(i) == c {
            return true;
        }
        i = i + 1;
    }
    false
}

} // verus!
