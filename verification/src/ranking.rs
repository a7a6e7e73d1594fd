//! The ranking engine: match predicates, the Levenshtein distance, the
//! five-rule scoring cascade, and the ordering of scored results.
//!
//! Scoring is case-insensitive: every rule compares the lowercase foldings
//! of the candidate and the query (see [`crate::text::lower_of`]), while the
//! length penalties use the lengths of the original strings.

use vstd::prelude::*;
use crate::score::{Score, rat_lt, rat_eq, score_lt, lemma_rat_lt_trans, lemma_rat_eq_lt};
use crate::text::{
    lower_of,
    lowercase,
    chars_of,
    lex_lt,
    lemma_lex_trans,
    lemma_lex_total,
    lemma_lex_asym,
    str_lex_lt,
};

verus! {

/// The smallest of three naturals.
pub open spec fn min3(x: nat, y: nat, z: nat) -> nat {
    if x <= y && x <= z {
        x
    } else if y <= z {
        y
    } else {
        z
    }
}

/// The Levenshtein distance: the least number of single-character
/// insertions, deletions and substitutions turning `a` into `b`, by the
/// classic recurrence on the last characters.
pub open spec fn lev(a: Seq<char>, b: Seq<char>) -> nat
    decreases a.len() + b.len(),
{
    if a.len() == 0 {
        b.len()
    } else if b.len() == 0 {
        a.len()
    } else {
        let cost: nat = if a.last() == b.last() {
            0
        } else {
            1
        };
        min3(lev(a.drop_last(), b) + 1, lev(a, b.drop_last()) + 1, lev(a.drop_last(), b.drop_last()) + cost)
    }
}

/// A string is at distance zero from itself.
pub proof fn lemma_lev_self(a: Seq<char>)
    ensures
        lev(a, a) == 0,
    decreases a.len(),
{
    if a.len() > 0 {
        lemma_lev_self(a.drop_last());
    }
}

/// The distance never exceeds the longer of the two lengths.
pub proof fn lemma_lev_le_max(a: Seq<char>, b: Seq<char>)
    ensures
        lev(a, b) <= a.len() || lev(a, b) <= b.len(),
    decreases a.len() + b.len(),
{
    if a.len() > 0 && b.len() > 0 {
        lemma_lev_le_max(a.drop_last(), b);
        lemma_lev_le_max(a, b.drop_last());
        lemma_lev_le_max(a.drop_last(), b.drop_last());
    }
}

/// The distance is symmetric.
pub proof fn lemma_lev_symmetric(a: Seq<char>, b: Seq<char>)
    ensures
        lev(a, b) == lev(b, a),
    decreases a.len() + b.len(),
{
    if a.len() > 0 && b.len() > 0 {
        lemma_lev_symmetric(a.drop_last(), b);
        lemma_lev_symmetric(a, b.drop_last());
        lemma_lev_symmetric(a.drop_last(), b.drop_last());
    }
}

/// `p` is a subsequence of `t`: all of `p`'s characters occur in `t` in
/// order, not necessarily adjacent. Stated as the greedy left-to-right scan,
/// which consumes a pattern character at its earliest possible position.
pub open spec fn is_subsequence(p: Seq<char>, t: Seq<char>) -> bool
    decreases t.len(),
{
    if p.len() == 0 {
        true
    } else if t.len() == 0 {
        false
    } else if p[0] == t[0] {
        is_subsequence(p.skip(1), t.skip(1))
    } else {
        is_subsequence(p, t.skip(1))
    }
}

/// A witness that `p` occurs inside `t` in order: strictly ascending
/// positions in `t`, one per character of `p`, each carrying that character.
pub open spec fn is_embedding(m: Seq<int>, p: Seq<char>, t: Seq<char>) -> bool {
    &&& m.len() == p.len()
    &&& forall|k: int| 0 <= k < m.len() ==> 0 <= #[trigger] m[k] < t.len() && t[m[k]] == p[k]
    &&& forall|k: int| 0 < k < m.len() ==> m[k - 1] < #[trigger] m[k]
}

/// The greedy scan finds a subsequence exactly when one exists: `p` is a
/// subsequence of `t` precisely when some ascending choice of positions
/// embeds `p` into `t`.
pub proof fn lemma_subsequence_embedding(p: Seq<char>, t: Seq<char>)
    ensures
        is_subsequence(p, t) <==> exists|m: Seq<int>| is_embedding(m, p, t),
    decreases t.len(),
{
    if is_subsequence(p, t) {
        if p.len() == 0 {
            assert(is_embedding(Seq::<int>::empty(), p, t));
        } else if p[0] == t[0] {
            lemma_subsequence_embedding(p.skip(1), t.skip(1));
            let m1 = choose|m1: Seq<int>| is_embedding(m1, p.skip(1), t.skip(1));
            let m = seq![0int] + m1.map_values(|x: int| x + 1);
            assert(is_embedding(m, p, t)) by {
                assert forall|k: int|
                    0 <= k < m.len() implies 0 <= #[trigger] m[k] < t.len() && t[m[k]] == p[k] by {
                    if k > 0 {
                        assert(m[k] == m1[k - 1] + 1);
                        assert(t.skip(1)[m1[k - 1]] == p.skip(1)[k - 1]);
                    }
                }
                assert forall|k: int| 0 < k < m.len() implies m[k - 1] < #[trigger] m[k] by {
                    if k > 1 {
                        assert(m[k - 1] == m1[k - 2] + 1 && m[k] == m1[k - 1] + 1);
                        assert(m1[k - 2] < m1[k - 1]);
                    }
                }
            }
        } else {
            lemma_subsequence_embedding(p, t.skip(1));
            let m1 = choose|m1: Seq<int>| is_embedding(m1, p, t.skip(1));
            let m = m1.map_values(|x: int| x + 1);
            assert(is_embedding(m, p, t)) by {
                assert forall|k: int|
                    0 <= k < m.len() implies 0 <= #[trigger] m[k] < t.len() && t[m[k]] == p[k] by {
                    assert(m[k] == m1[k] + 1);
                    assert(t.skip(1)[m1[k]] == p[k]);
                }
                assert forall|k: int| 0 < k < m.len() implies m[k - 1] < #[trigger] m[k] by {
                    assert(m[k - 1] == m1[k - 1] + 1 && m[k] == m1[k] + 1);
                    assert(m1[k - 1] < m1[k]);
                }
            }
        }
    }
    if exists|m: Seq<int>| is_embedding(m, p, t) {
        let m = choose|m: Seq<int>| is_embedding(m, p, t);
        if p.len() == 0 {
        } else {
            assert(0 <= m[0] < t.len());
            if p[0] == t[0] {
                let m2 = m.skip(1).map_values(|x: int| x - 1);
                assert(is_embedding(m2, p.skip(1), t.skip(1))) by {
                    assert forall|k: int|
                        0 <= k < m2.len() implies 0 <= #[trigger] m2[k] < t.skip(1).len()
                        && t.skip(1)[m2[k]] == p.skip(1)[k] by {
                        assert(m.skip(1)[k] == m[k + 1]);
                        assert(m2[k] == m[k + 1] - 1);
                        assert(m[k + 1] >= 1) by {
                            lemma_embedding_ascends(m, k + 1);
                        }
                        assert(t[m[k + 1]] == p[k + 1]);
                    }
                    assert forall|k: int| 0 < k < m2.len() implies m2[k - 1] < #[trigger] m2[k] by {
                        assert(m.skip(1)[k - 1] == m[k] && m.skip(1)[k] == m[k + 1]);
                        assert(m[k] < m[k + 1]);
                    }
                }
                lemma_subsequence_embedding(p.skip(1), t.skip(1));
            } else {
                assert(m[0] >= 1) by {
                    assert(t[m[0]] == p[0]);
                }
                let m2 = m.map_values(|x: int| x - 1);
                assert(is_embedding(m2, p, t.skip(1))) by {
                    assert forall|k: int|
                        0 <= k < m2.len() implies 0 <= #[trigger] m2[k] < t.skip(1).len()
                        && t.skip(1)[m2[k]] == p[k] by {
                        assert(m2[k] == m[k] - 1);
                        assert(m[k] >= 1) by {
                            lemma_embedding_ascends(m, k);
                        }
                        assert(t[m[k]] == p[k]);
                    }
                    assert forall|k: int| 0 < k < m2.len() implies m2[k - 1] < #[trigger] m2[k] by {
                        assert(m[k - 1] < m[k]);
                    }
                }
                lemma_subsequence_embedding(p, t.skip(1));
            }
        }
    }
}

/// Positions of an embedding grow at least as fast as their index.
proof fn lemma_embedding_ascends(m: Seq<int>, k: int)
    requires
        0 <= k < m.len(),
        m[0] >= 0,
        forall|j: int| 0 < j < m.len() ==> m[j - 1] < #[trigger] m[j],
    ensures
        m[k] >= k,
    decreases k,
{
    if k > 0 {
        lemma_embedding_ascends(m, k - 1);
    }
}

/// The position of the first occurrence of `p` in `t` at or after `from`.
pub open spec fn first_occurrence_from(t: Seq<char>, p: Seq<char>, from: int) -> Option<int>
    decreases t.len() - from + 1,
{
    if from < 0 || from + p.len() > t.len() {
        None
    } else if t.subrange(from, from + p.len()) == p {
        Some(from)
    } else {
        first_occurrence_from(t, p, from + 1)
    }
}

/// The position of the first occurrence of `p` anywhere in `t`.
pub open spec fn first_occurrence(t: Seq<char>, p: Seq<char>) -> Option<int> {
    first_occurrence_from(t, p, 0)
}

/// Whether all of `p`'s characters occur in `t` in order, by the same scan
/// that the specification describes.
pub fn subsequence_match(p: &Vec<char>, t: &Vec<char>) -> (r: bool)
    ensures
        r == is_subsequence(p@, t@),
{
    let mut pi: usize = 0;
    let mut ti: usize = 0;
    proof {
        assert(p@.skip(0) =~= p@);
        assert(t@.skip(0) =~= t@);
    }
    while ti < t.len() && pi < p.len()
        invariant
            pi <= p.len(),
            ti <= t.len(),
            is_subsequence(p@, t@) == is_subsequence(p@.skip(pi as int), t@.skip(ti as int)),
        decreases t@.len() - ti,
    {
        proof {
            assert(p@.skip(pi as int)[0] == p@[pi as int]);
            assert(t@.skip(ti as int)[0] == t@[ti as int]);
            assert(t@.skip(ti as int).skip(1) =~= t@.skip(ti + 1 as int));
            assert(p@.skip(pi as int).skip(1) =~= p@.skip(pi + 1 as int));
        }
        if p[pi] == t[ti] {
            pi = pi + 1;
        }
        ti = ti + 1;
    }
    proof {
        if pi == p.len() {
            assert(p@.skip(pi as int).len() == 0);
        } else {
            assert(t@.skip(ti as int).len() == 0);
            assert(p@.skip(pi as int).len() > 0);
        }
    }
    pi == p.len()
}

/// The position, in characters, of the first occurrence of `p` in `t`.
pub fn find_substring(t: &Vec<char>, p: &Vec<char>) -> (r: Option<usize>)
    ensures
        match r {
            Some(i) => first_occurrence(t@, p@) == Some(i as int),
            None => first_occurrence(t@, p@) is None,
        },
{
    if p.len() > t.len() {
        return None;
    }
    let bound = t.len() - p.len();
    let mut i: usize = 0;
    while i <= bound
        invariant
            i <= t.len(),
            p@.len() <= t@.len(),
            bound == t@.len() - p@.len(),
            first_occurrence(t@, p@) == first_occurrence_from(t@, p@, i as int),
        ensures
            i + p@.len() > t@.len(),
            first_occurrence(t@, p@) == first_occurrence_from(t@, p@, i as int),
        decreases t@.len() - i,
    {
        let mut j: usize = 0;
        let mut matched = true;
        while j < p.len()
            invariant
                t@.len() <= usize::MAX,
                i + p@.len() <= t@.len(),
                j <= p@.len(),
                matched == (t@.subrange(i as int, i + j) =~= p@.take(j as int)),
            ensures
                matched == (t@.subrange(i as int, i + p@.len()) =~= p@),
            decreases p@.len() - j,
        {
            proof {
                assert(t@.subrange(i as int, i + j + 1) =~= t@.subrange(i as int, i + j).push(
                    t@[i + j],
                ));
                assert(p@.take(j + 1 as int) =~= p@.take(j as int).push(p@[j as int]));
            }
            if t[i + j] != p[j] {
                matched = false;
                proof {
                    assert(t@.subrange(i as int, i + j + 1)[j as int] == t@[i + j]);
                    assert(p@.take(j + 1 as int)[j as int] == p@[j as int]);
                }
            }
            j = j + 1;
            proof {
                if j == p@.len() {
                    assert(p@.take(j as int) =~= p@);
                }
            }
        }
        if matched {
            return Some(i);
        }
        i = i + 1;
    }
    proof {
        assert(first_occurrence_from(t@, p@, i as int) is None);
    }
    None
}

/// The score of a prefix match: 90 minus half a point per character of
/// trailing suffix, in tenths. No score at all when that drops to zero.
pub open spec fn prefix_score(clen: int, qlen: int) -> Option<Score> {
    let n = 900 + 5 * qlen - 5 * clen;
    if n > 0 {
        Some(Score { num: n as u128, den: 10 })
    } else {
        None
    }
}

/// The score of a substring match at position `pos`: 70, minus half a point
/// per character before the occurrence, minus three tenths per character of
/// length difference. No score when that drops to zero.
pub open spec fn substring_score(clen: int, qlen: int, pos: int) -> Option<Score> {
    let n = 700 - 5 * pos + 3 * qlen - 3 * clen;
    if n > 0 {
        Some(Score { num: n as u128, den: 10 })
    } else {
        None
    }
}

/// The edit-distance fallback: when the distance `d` is under 0.6 of the
/// longer length `m`, the score is `30 * (m - d) / m`; otherwise none.
pub open spec fn distance_score(clen: int, qlen: int, d: int) -> Option<Score> {
    let m = if clen >= qlen {
        clen
    } else {
        qlen
    };
    if 10 * d < 6 * m {
        Some(Score { num: (30 * (m - d)) as u128, den: m as u128 })
    } else {
        None
    }
}

/// The scoring cascade over already-folded strings: `lc` and `lq` are the
/// lowercase foldings of a candidate and the query, `clen` and `qlen` the
/// lengths of the originals, which the length penalties use. The first
/// applicable rule wins; `None` means the candidate is left out.
pub open spec fn spec_score_folded(lc: Seq<char>, clen: int, lq: Seq<char>, qlen: int) -> Option<
    Score,
> {
    if lc == lq {
        Some(Score { num: 1000, den: 10 })
    } else if lq.is_prefix_of(lc) {
        prefix_score(clen, qlen)
    } else {
        match first_occurrence(lc, lq) {
            Some(pos) => substring_score(clen, qlen, pos),
            None => {
                if is_subsequence(lq, lc) {
                    Some(Score { num: 700, den: 10 })
                } else {
                    distance_score(clen, qlen, lev(lc, lq) as int)
                }
            },
        }
    }
}

/// The score of candidate `cand` against query `query`: the cascade over
/// their lowercase foldings and original lengths.
pub open spec fn spec_score(cand: Seq<char>, query: Seq<char>) -> Option<Score> {
    spec_score_folded(lower_of(cand), cand.len() as int, lower_of(query), query.len() as int)
}

/// Runs the scoring cascade on folded strings: exact match, prefix,
/// substring, subsequence, edit-distance fallback, first hit wins.
pub fn score_folded(
    cand_lower: &Vec<char>,
    cand_len: usize,
    query_lower: &Vec<char>,
    query_len: usize,
) -> (r: Option<Score>)
    ensures
        r == spec_score_folded(cand_lower@, cand_len as int, query_lower@, query_len as int),
        r matches Some(s) ==> s.valid(),
{
    if eq_chars(cand_lower, query_lower) {
        return Some(Score { num: 1000, den: 10 });
    }
    if is_prefix_chars(query_lower, cand_lower) {
        let have: u128 = 900 + 5 * (query_len as u128);
        let need: u128 = 5 * (cand_len as u128);
        if have > need {
            return Some(Score { num: have - need, den: 10 });
        }
        return None;
    }
    match find_substring(cand_lower, query_lower) {
        Some(pos) => {
            let have: u128 = 700 + 3 * (query_len as u128);
            let need: u128 = 5 * (pos as u128) + 3 * (cand_len as u128);
            if have > need {
                Some(Score { num: have - need, den: 10 })
            } else {
                None
            }
        },
        None => {
            if subsequence_match(query_lower, cand_lower) {
                return Some(Score { num: 700, den: 10 });
            }
            let d = levenshtein(cand_lower, query_lower);
            let m = if cand_len >= query_len {
                cand_len
            } else {
                query_len
            };
            if 10 * (d as u128) < 6 * (m as u128) {
                Some(Score { num: 30 * ((m - d) as u128), den: m as u128 })
            } else {
                None
            }
        },
    }
}

/// A case-insensitively exact match always scores exactly 100 points.
pub proof fn lemma_exact_match_full_score(cand: Seq<char>, query: Seq<char>)
    requires
        lower_of(cand) == lower_of(query),
    ensures
        spec_score(cand, query) == Some(Score { num: 1000, den: 10 }),
{
}

/// Among two candidates of the same length, one matching the query as a
/// prefix and the other only as a substring, the prefix match scores
/// strictly higher. This holds whenever the shared candidate length does not
/// exceed the query length by more than 100 characters; far beyond that, the
/// two rules' length penalties drain the prefix score first.
pub proof fn lemma_prefix_beats_substring(pre: Seq<char>, sub: Seq<char>, query: Seq<char>)
    requires
        query.len() <= 0xffff_ffff_ffff_ffff,
        pre.len() == sub.len(),
        pre.len() <= query.len() + 100,
        // `pre` matches by rule 2: a proper prefix, not an exact match.
        lower_of(pre) != lower_of(query),
        lower_of(query).is_prefix_of(lower_of(pre)),
        // `sub` matches by rule 3: an occurrence, but not at the front.
        lower_of(sub) != lower_of(query),
        !lower_of(query).is_prefix_of(lower_of(sub)),
        first_occurrence(lower_of(sub), lower_of(query)) is Some,
        spec_score(sub, query) is Some,
    ensures
        spec_score(pre, query) is Some,
        rat_lt(spec_score(sub, query).unwrap(), spec_score(pre, query).unwrap()),
{
    let pos = first_occurrence(lower_of(sub), lower_of(query)).unwrap();
    lemma_first_occurrence_at_least(lower_of(sub), lower_of(query), 0);
    let np = 900 + 5 * query.len() - 5 * pre.len();
    let ns = 700 - 5 * pos + 3 * query.len() - 3 * sub.len();
    assert(ns > 0);
    assert(pos >= 1);
    assert(np - ns == 200 + 2 * (query.len() - pre.len()) + 5 * pos);
    assert(0 < ns < np);
    assert(np <= 900 + 5 * query.len());
    let sp = spec_score(pre, query).unwrap();
    let ss = spec_score(sub, query).unwrap();
    assert(sp.num == np as u128 && sp.den == 10);
    assert(ss.num == ns as u128 && ss.den == 10);
}

/// A first occurrence that is not at the front sits at a positive position;
/// more generally, an occurrence found from `from` onward sits at or after
/// `from`, and at the front exactly when the pattern is a prefix.
proof fn lemma_first_occurrence_at_least(t: Seq<char>, p: Seq<char>, from: int)
    requires
        first_occurrence_from(t, p, from) is Some,
    ensures
        first_occurrence_from(t, p, from).unwrap() >= from,
        first_occurrence_from(t, p, from).unwrap() == 0 ==> p.is_prefix_of(t),
    decreases t.len() - from + 1,
{
    if !(from < 0 || from + p.len() > t.len()) && t.subrange(from, from + p.len()) == p {
        if from == 0 {
            assert(p.is_prefix_of(t));
        }
    } else {
        lemma_first_occurrence_at_least(t, p, from + 1);
    }
}

/// Whether two character vectors hold the same characters.
fn eq_chars(a: &Vec<char>, b: &Vec<char>) -> (r: bool)
    ensures
        r == (a@ == b@),
{
    if a.len() != b.len() {
        return false;
    }
    let mut i: usize = 0;
    while i < a.len()
        invariant
            a@.len() == b@.len(),
            i <= a@.len(),
            forall|k: int| 0 <= k < i ==> a@[k] == b@[k],
        decreases a@.len() - i,
    {
        if a[i] != b[i] {
            return false;
        }
        i = i + 1;
    }
    proof {
        assert(a@ =~= b@);
    }
    true
}

/// Whether `p` is a prefix of `t`.
fn is_prefix_chars(p: &Vec<char>, t: &Vec<char>) -> (r: bool)
    ensures
        r == p@.is_prefix_of(t@),
{
    if p.len() > t.len() {
        return false;
    }
    let mut i: usize = 0;
    while i < p.len()
        invariant
            p@.len() <= t@.len(),
            i <= p@.len(),
            forall|k: int| 0 <= k < i ==> p@[k] == t@[k],
        decreases p@.len() - i,
    {
        if p[i] != t[i] {
            proof {
                assert(t@.subrange(0, p@.len() as int)[i as int] == t@[i as int]);
            }
            return false;
        }
        i = i + 1;
    }
    proof {
        assert(p@ =~= t@.subrange(0, p@.len() as int));
    }
    true
}

/// Scores one candidate against the (pre-folded) query, by the cascade.
/// `query` is the original query; `query_lower` its folding; `query_len` its
/// length in characters.
pub(crate) fn score_of(
    value: &str,
    query_lower: &Vec<char>,
    query_len: usize,
    Ghost(query): Ghost<Seq<char>>,
) -> (r: Option<Score>)
    requires
        query_lower@ == lower_of(query),
        query_len == query.len(),
    ensures
        r == spec_score(value@, query),
        r matches Some(s) ==> s.valid(),
{
    let value_lower = lowercase(value);
    let vl = chars_of(value_lower.as_str());
    let vc = value.unicode_len();
    score_folded(&vl, vc, query_lower, query_len)
}

/// The order of ranked results: higher scores first, names in ascending
/// lexicographic order among equal scores.
pub open spec fn ranked_le(n1: Seq<char>, s1: Score, n2: Seq<char>, s2: Score) -> bool {
    rat_lt(s2, s1) || (rat_eq(s1, s2) && (lex_lt(n1, n2) || n1 == n2))
}

/// Any two ranked entries are comparable.
pub proof fn lemma_ranked_le_total(n1: Seq<char>, s1: Score, n2: Seq<char>, s2: Score)
    requires
        s1.valid(),
        s2.valid(),
    ensures
        ranked_le(n1, s1, n2, s2) || ranked_le(n2, s2, n1, s1),
{
    lemma_lex_total(n1, n2);
}

/// The ranked order is transitive.
pub proof fn lemma_ranked_le_trans(
    n1: Seq<char>,
    s1: Score,
    n2: Seq<char>,
    s2: Score,
    n3: Seq<char>,
    s3: Score,
)
    requires
        s1.valid(),
        s2.valid(),
        s3.valid(),
        ranked_le(n1, s1, n2, s2),
        ranked_le(n2, s2, n3, s3),
    ensures
        ranked_le(n1, s1, n3, s3),
{
    if rat_lt(s2, s1) && rat_lt(s3, s2) {
        lemma_rat_lt_trans(s3, s2, s1);
    } else if rat_lt(s2, s1) && rat_eq(s2, s3) {
        lemma_rat_eq_lt(s2, s3, s1);
    } else if rat_eq(s1, s2) && rat_lt(s3, s2) {
        lemma_rat_eq_lt(s1, s2, s3);
    } else {
        lemma_rat_eq_lt(s1, s2, s3);
        lemma_rat_eq_lt(s3, s2, s1);
        if lex_lt(n1, n2) && lex_lt(n2, n3) {
            lemma_lex_trans(n1, n2, n3);
        }
    }
}

/// How many entries of `s` carry the name `n`.
pub open spec fn name_count(s: Seq<(String, Score)>, n: Seq<char>) -> nat
    decreases s.len(),
{
    if s.len() == 0 {
        0
    } else {
        (if s.last().0@ == n {
            1nat
        } else {
            0nat
        }) + name_count(s.drop_last(), n)
    }
}

/// Inserting an entry raises the count of its own name by one and no other.
pub proof fn lemma_name_count_insert(
    s: Seq<(String, Score)>,
    i: int,
    e: (String, Score),
    n: Seq<char>,
)
    requires
        0 <= i <= s.len(),
    ensures
        name_count(s.insert(i, e), n) == name_count(s, n) + (if e.0@ == n {
            1nat
        } else {
            0nat
        }),
    decreases s.len(),
{
    let t = s.insert(i, e);
    if i == s.len() {
        assert(t.drop_last() =~= s);
        assert(t.last() == e);
    } else {
        assert(t.last() == s.last());
        assert(t.drop_last() =~= s.drop_last().insert(i, e));
        lemma_name_count_insert(s.drop_last(), i, e, n);
    }
}

/// A name has a positive count exactly when some entry carries it.
pub proof fn lemma_name_count_contains(s: Seq<(String, Score)>, n: Seq<char>)
    ensures
        (name_count(s, n) > 0) <==> exists|k: int| 0 <= k < s.len() && s[k].0@ == n,
    decreases s.len(),
{
    if s.len() > 0 {
        lemma_name_count_contains(s.drop_last(), n);
        if s.last().0@ == n {
            assert(s[s.len() - 1].0@ == n);
        }
        if name_count(s, n) > 0 && s.last().0@ != n {
            let k = choose|k: int| 0 <= k < s.drop_last().len() && s.drop_last()[k].0@ == n;
            assert(s[k].0@ == n);
        }
        if exists|k: int| 0 <= k < s.len() && s[k].0@ == n {
            let k = choose|k: int| 0 <= k < s.len() && s[k].0@ == n;
            if k < s.len() - 1 {
                assert(s.drop_last()[k].0@ == n);
            }
        }
    }
}

/// A name carried by at most one entry pins that entry's position.
pub proof fn lemma_name_count_unique(s: Seq<(String, Score)>, n: Seq<char>, i: int, j: int)
    requires
        name_count(s, n) <= 1,
        0 <= i < s.len(),
        0 <= j < s.len(),
        s[i].0@ == n,
        s[j].0@ == n,
    ensures
        i == j,
    decreases s.len(),
{
    if i != j {
        lemma_name_count_contains(s.drop_last(), n);
        if i < s.len() - 1 && j < s.len() - 1 {
            assert(s.drop_last()[i].0@ == n);
            lemma_name_count_unique(s.drop_last(), n, i, j);
        } else {
            let k = if i < s.len() - 1 {
                i
            } else {
                j
            };
            assert(s.drop_last()[k].0@ == n);
        }
    }
}

/// In a row of entries with pairwise distinct names, no name is carried
/// twice.
pub proof fn lemma_name_count_distinct(s: Seq<(String, Score)>, n: Seq<char>)
    requires
        forall|x: int, y: int| 0 <= x < y < s.len() ==> (#[trigger] s[x]).0@ != (#[trigger] s[y]).0@,
    ensures
        name_count(s, n) <= 1,
    decreases s.len(),
{
    if s.len() > 0 {
        let rest = s.drop_last();
        lemma_name_count_distinct(rest, n);
        if s.last().0@ == n && name_count(rest, n) > 0 {
            lemma_name_count_contains(rest, n);
            let k = choose|k: int| 0 <= k < rest.len() && rest[k].0@ == n;
            assert(s[k].0@ == n && s[s.len() - 1].0@ == n);
        }
    }
}

/// Rearranging entries with pairwise distinct names keeps the names
/// distinct, and keeps exactly the same set of names.
pub proof fn lemma_rearranged_names(pairs: Seq<(String, Score)>, sorted: Seq<(String, Score)>)
    requires
        forall|x: int, y: int|
            0 <= x < y < pairs.len() ==> (#[trigger] pairs[x]).0@ != (#[trigger] pairs[y]).0@,
        forall|n: Seq<char>| name_count(sorted, n) == name_count(pairs, n),
    ensures
        forall|x: int, y: int|
            0 <= x < y < sorted.len() ==> (#[trigger] sorted[x]).0@ != (#[trigger] sorted[y]).0@,
{
    assert forall|x: int, y: int|
        0 <= x < y < sorted.len() implies (#[trigger] sorted[x]).0@ != (#[trigger] sorted[y]).0@ by {
        if sorted[x].0@ == sorted[y].0@ {
            lemma_name_count_distinct(pairs, sorted[x].0@);
            lemma_name_count_unique(sorted, sorted[x].0@, x, y);
        }
    }
}

/// Whether `a` comes no later than `b` in the ranked order.
fn ranked_le_exec(a: &(String, Score), b: &(String, Score)) -> (r: bool)
    requires
        a.1.valid(),
        b.1.valid(),
    ensures
        r == ranked_le(a.0@, a.1, b.0@, b.1),
{
    if score_lt(&b.1, &a.1) {
        return true;
    }
    if score_lt(&a.1, &b.1) {
        return false;
    }
    let lt = str_lex_lt(b.0.as_str(), a.0.as_str());
    proof {
        lemma_lex_total(b.0@, a.0@);
        if lex_lt(b.0@, a.0@) {
            lemma_lex_asym(b.0@, a.0@);
        }
    }
    !lt
}

/// Sorts ranked entries by score descending, names ascending among equal
/// scores. The result is a rearrangement: every entry comes from the input,
/// and every name keeps its multiplicity.
pub(crate) fn sort_ranked(v: Vec<(String, Score)>) -> (r: Vec<(String, Score)>)
    requires
        forall|k: int| 0 <= k < v@.len() ==> (#[trigger] v@[k]).1.valid(),
    ensures
        r@.len() == v@.len(),
        forall|k: int| 0 <= k < r@.len() ==> (#[trigger] r@[k]).1.valid(),
        forall|k: int| 0 <= k < r@.len() ==> v@.contains(#[trigger] r@[k]),
        forall|n: Seq<char>| name_count(r@, n) == name_count(v@, n),
        forall|x: int, y: int|
            0 <= x < y < r@.len() ==> ranked_le(r@[x].0@, r@[x].1, r@[y].0@, r@[y].1),
{
    let mut src = v;
    let mut out: Vec<(String, Score)> = Vec::new();
    proof {
        assert forall|k: int| 0 <= k < src@.len() implies v@.contains(#[trigger] src@[k]) by {
            assert(v@[k] == src@[k]);
        }
    }
    while src.len() > 0
        invariant
            forall|k: int| 0 <= k < src@.len() ==> (#[trigger] src@[k]).1.valid(),
            forall|k: int| 0 <= k < out@.len() ==> (#[trigger] out@[k]).1.valid(),
            forall|k: int| 0 <= k < src@.len() ==> v@.contains(#[trigger] src@[k]),
            forall|k: int| 0 <= k < out@.len() ==> v@.contains(#[trigger] out@[k]),
            out@.len() + src@.len() == v@.len(),
            forall|n: Seq<char>| name_count(out@, n) + name_count(src@, n) == name_count(v@, n),
            forall|x: int, y: int|
                0 <= x < y < out@.len() ==> ranked_le(out@[x].0@, out@[x].1, out@[y].0@, out@[y].1),
        decreases src@.len(),
    {
        let ghost src_pre = src@;
        let x = src.pop().unwrap();
        proof {
            assert(src@ =~= src_pre.drop_last());
            assert(x == src_pre[src_pre.len() - 1]);
        }
        let mut idx: usize = 0;
        while idx < out.len() && ranked_le_exec(&out[idx], &x)
            invariant
                idx <= out@.len(),
                x.1.valid(),
                forall|k: int| 0 <= k < out@.len() ==> (#[trigger] out@[k]).1.valid(),
                forall|k: int| 0 <= k < idx ==> ranked_le(
                    (#[trigger] out@[k]).0@,
                    out@[k].1,
                    x.0@,
                    x.1,
                ),
            decreases out@.len() - idx,
        {
            idx = idx + 1;
        }
        proof {
            if idx < out@.len() {
                lemma_ranked_le_total(out@[idx as int].0@, out@[idx as int].1, x.0@, x.1);
                assert(ranked_le(x.0@, x.1, out@[idx as int].0@, out@[idx as int].1));
            }
        }
        let ghost out_pre = out@;
        out.insert(idx, x);
        proof {
            assert forall|n: Seq<char>|
                name_count(out@, n) + name_count(src@, n) == name_count(v@, n) by {
                lemma_name_count_insert(out_pre, idx as int, x, n);
            }
            assert forall|xx: int, yy: int| 0 <= xx < yy < out@.len() implies ranked_le(
                out@[xx].0@,
                out@[xx].1,
                out@[yy].0@,
                out@[yy].1,
            ) by {
                let i = idx as int;
                if xx == i && yy > i {
                    assert(out@[yy] == out_pre[yy - 1]);
                    if yy - 1 > i {
                        lemma_ranked_le_trans(
                            x.0@,
                            x.1,
                            out_pre[i].0@,
                            out_pre[i].1,
                            out_pre[yy - 1].0@,
                            out_pre[yy - 1].1,
                        );
                    }
                } else if xx < i && yy == i {
                    assert(out@[xx] == out_pre[xx]);
                } else if xx < i && yy > i {
                    assert(out@[xx] == out_pre[xx] && out@[yy] == out_pre[yy - 1]);
                    if yy - 1 == xx {
                        assert(ranked_le(out@[xx].0@, out@[xx].1, x.0@, x.1));
                        assert(false);
                    }
                } else if xx > i {
                    assert(out@[xx] == out_pre[xx - 1] && out@[yy] == out_pre[yy - 1]);
                } else if yy < i {
                    assert(out@[xx] == out_pre[xx] && out@[yy] == out_pre[yy]);
                }
            }
        }
    }
    proof {
        assert(src@.len() == 0);
        assert forall|n: Seq<char>| name_count(out@, n) == name_count(v@, n) by {
            assert(name_count(src@, n) == 0);
        }
    }
    out
}

/// Computes the Levenshtein distance over the full dynamic-programming
/// table, exactly as the recurrence defines it.
pub fn levenshtein(a: &Vec<char>, b: &Vec<char>) -> (d: usize)
    ensures
        d as nat == lev(a@, b@),
{
    let n = a.len();
    let m = b.len();
    if n == 0 {
        proof {
            assert(a@ =~= Seq::<char>::empty());
        }
        return m;
    }
    if m == 0 {
        proof {
            assert(b@ =~= Seq::<char>::empty());
        }
        return n;
    }
    let mut matrix: Vec<Vec<usize>> = Vec::new();
    let mut row0: Vec<usize> = Vec::new();
    row0.push(0);
    proof {
        assert(a@.take(0) =~= Seq::<char>::empty());
        assert(b@.take(0) =~= Seq::<char>::empty());
    }
    let mut j: usize = 0;
    while j < m
        invariant
            j < m ==> j + 1 <= m,
            j <= m,
            row0@.len() == j + 1,
            m == b@.len(),
            forall|k: int| 0 <= k <= j ==> row0@[k] as nat == lev(a@.take(0), b@.take(k)),
        decreases m - j,
    {
        proof {
            assert(a@.take(0) =~= Seq::<char>::empty());
            assert(lev(a@.take(0), b@.take(j + 1 as int)) == b@.take(j + 1 as int).len());
        }
        row0.push(j + 1);
        j = j + 1;
    }
    matrix.push(row0);
    let mut i: usize = 0;
    while i < n
        invariant
            i <= n,
            n == a@.len(),
            m == b@.len(),
            matrix@.len() == i + 1,
            forall|r: int| 0 <= r <= i ==> (#[trigger] matrix@[r])@.len() == m + 1,
            forall|r: int, c: int|
                0 <= r <= i && 0 <= c <= m ==> (#[trigger] matrix@[r]@[c]) as nat == lev(
                    a@.take(r),
                    b@.take(c),
                ),
        decreases n - i,
    {
        let row_i = i + 1;
        let mut row: Vec<usize> = Vec::new();
        proof {
            assert(b@.take(0) =~= Seq::<char>::empty());
            assert(a@.take(row_i as int).len() == row_i);
        }
        row.push(row_i);
        let mut j: usize = 0;
        while j < m
            invariant
                i < n,
                row_i == i + 1,
                j <= m,
                n == a@.len(),
                m == b@.len(),
                row@.len() == j + 1,
                matrix@.len() == i + 1,
                forall|r: int| 0 <= r <= i ==> (#[trigger] matrix@[r])@.len() == m + 1,
                forall|r: int, c: int|
                    0 <= r <= i && 0 <= c <= m ==> (#[trigger] matrix@[r]@[c]) as nat == lev(
                        a@.take(r),
                        b@.take(c),
                    ),
                forall|c: int| 0 <= c <= j ==> (#[trigger] row@[c]) as nat == lev(
                    a@.take(row_i as int),
                    b@.take(c),
                ),
            decreases m - j,
        {
            let col_j = j + 1;
            let prev = &matrix[i];
            let cost: u128 = if a[row_i - 1] == b[col_j - 1] {
                0
            } else {
                1
            };
            let del: u128 = prev[col_j] as u128 + 1;
            let ins: u128 = row[col_j - 1] as u128 + 1;
            let sub: u128 = prev[col_j - 1] as u128 + cost;
            let best128: u128 = if del <= ins && del <= sub {
                del
            } else if ins <= sub {
                ins
            } else {
                sub
            };
            proof {
                let ai = a@.take(row_i as int);
                let bj = b@.take(col_j as int);
                assert(ai.drop_last() =~= a@.take(row_i - 1));
                assert(bj.drop_last() =~= b@.take(col_j - 1));
                assert(ai.last() == a@[row_i - 1]);
                assert(bj.last() == b@[col_j - 1]);
                assert(lev(ai, bj) == min3(
                    lev(a@.take(row_i - 1), bj) + 1,
                    lev(ai, b@.take(col_j - 1)) + 1,
                    lev(a@.take(row_i - 1), b@.take(col_j - 1)) + (if a@[row_i - 1] == b@[col_j
                        - 1] {
                        0nat
                    } else {
                        1nat
                    }),
                ));
                lemma_lev_le_max(ai, bj);
                assert(lev(ai, bj) <= n || lev(ai, bj) <= m);
            }
            let best = best128 as usize;
            row.push(best);
            j = j + 1;
        }
        matrix.push(row);
        i = i + 1;
    }
    proof {
        assert(a@.take(n as int) =~= a@);
        assert(b@.take(m as int) =~= b@);
    }
    matrix[n][m]
}

} // verus!
