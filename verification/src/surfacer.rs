use vstd::prelude::*;
use crate::db::{articles_sel, Database};
use crate::models::{Article, ReadingPattern};
use crate::order::{art_score, in_topic_set};
use crate::text::{contains_seq, lower_of, lowercase, str_contains};
use crate::PatinaError;

verus! {

// ---------------------------------------------------------------------------
// Partitioning the reading patterns into ranking and exclusion signals.
// ---------------------------------------------------------------------------

/// An inclusion signal: its value joins the ranking topic set.
pub open spec fn is_inclusion(p: ReadingPattern) -> bool {
    p.pattern_type@ == "topic"@ || p.pattern_type@ == "keyword"@
}

/// An exclusion signal: its value is filtered out as a substring.
pub open spec fn is_exclusion(p: ReadingPattern) -> bool {
    p.pattern_type@ == "excluded"@
}

/// `t` is the value of some inclusion pattern.
pub open spec fn in_inclusion(pats: Seq<ReadingPattern>, t: Seq<char>) -> bool {
    exists|i: int|
        0 <= i < pats.len() && is_inclusion(#[trigger] pats[i]) && pats[i].value@ == t
}

pub open spec fn has_inclusion(pats: Seq<ReadingPattern>) -> bool {
    exists|i: int| 0 <= i < pats.len() && is_inclusion(#[trigger] pats[i])
}

pub open spec fn has_exclusion(pats: Seq<ReadingPattern>) -> bool {
    exists|i: int| 0 <= i < pats.len() && is_exclusion(#[trigger] pats[i])
}

/// The excluded value occurs, case-insensitively, in the article's title
/// or summary.
pub open spec fn value_hits(v: Seq<char>, a: Article) -> bool {
    contains_seq(lower_of(a.title@), lower_of(v)) || (a.summary matches Some(s) && contains_seq(
        lower_of(s@),
        lower_of(v),
    ))
}

/// Some exclusion pattern's value occurs in the article.
pub open spec fn excluded_match(pats: Seq<ReadingPattern>, a: Article) -> bool {
    exists|i: int|
        0 <= i < pats.len() && is_exclusion(#[trigger] pats[i]) && value_hits(pats[i].value@, a)
}

/// Some value of the list occurs in the article.
pub open spec fn list_match(ex: Seq<String>, a: Article) -> bool {
    exists|i: int| 0 <= i < ex.len() && value_hits((#[trigger] ex[i])@, a)
}

/// The article's score over the inclusion patterns' values.
pub open spec fn incl_score(rows: Seq<crate::models::TopicRow>, pats: Seq<ReadingPattern>, aid: i64) -> int
    decreases rows.len(),
{
    if rows.len() == 0 {
        0
    } else {
        incl_score(rows.drop_last(), pats, aid) + if rows.last().article_id == aid && in_inclusion(
            pats,
            rows.last().topic@,
        ) {
            rows.last().score as int
        } else {
            0
        }
    }
}

proof fn lemma_incl_score_eq(
    rows: Seq<crate::models::TopicRow>,
    tset: Seq<String>,
    pats: Seq<ReadingPattern>,
    aid: i64,
)
    requires
        forall|t: Seq<char>| #[trigger] in_topic_set(t, tset) == in_inclusion(pats, t),
    ensures
        art_score(rows, tset, aid) == incl_score(rows, pats, aid),
    decreases rows.len(),
{
    if rows.len() > 0 {
        lemma_incl_score_eq(rows.drop_last(), tset, pats, aid);
    }
}

// ---------------------------------------------------------------------------
// Filtering the candidates against the exclusion values.
// ---------------------------------------------------------------------------

/// The candidates that carry no excluded value, in order.
pub open spec fn surfaced(cands: Seq<Article>, ex: Seq<String>) -> Seq<Article>
    decreases cands.len(),
{
    if cands.len() == 0 {
        Seq::empty()
    } else {
        let rest = surfaced(cands.drop_last(), ex);
        if list_match(ex, cands.last()) {
            rest
        } else {
            rest.push(cands.last())
        }
    }
}

proof fn lemma_surfaced_props(cands: Seq<Article>, ex: Seq<String>)
    ensures
        forall|x: Article|
            #[trigger] surfaced(cands, ex).to_multiset().count(x) <= cands.to_multiset().count(x),
        forall|k: int|
            0 <= k < surfaced(cands, ex).len() ==> !list_match(
                ex,
                #[trigger] surfaced(cands, ex)[k],
            ),
        forall|k: int|
            0 <= k < surfaced(cands, ex).len() ==> exists|j: int|
                0 <= j < cands.len() && #[trigger] surfaced(cands, ex)[k] == cands[j],
        forall|k1: int, k2: int|
            0 <= k1 < k2 < surfaced(cands, ex).len() ==> exists|j1: int, j2: int|
                0 <= j1 < j2 < cands.len() && #[trigger] surfaced(cands, ex)[k1] == cands[j1]
                    && #[trigger] surfaced(cands, ex)[k2] == cands[j2],
        ex.len() == 0 ==> surfaced(cands, ex) == cands,
    decreases cands.len(),
{
    broadcast use vstd::seq_lib::group_to_multiset_ensures;

    let w = surfaced(cands, ex);
    if cands.len() == 0 {
        assert(w.to_multiset().len() == 0);
        assert(cands.to_multiset().len() == 0);
        if ex.len() == 0 {
            assert(w =~= cands);
        }
    } else {
        let rest = cands.drop_last();
        lemma_surfaced_props(rest, ex);
        let wr = surfaced(rest, ex);
        assert(rest.push(cands.last()) =~= cands);
        assert(cands.to_multiset() =~= rest.to_multiset().insert(cands.last()));
        if list_match(ex, cands.last()) {
            assert forall|x: Article|
                #[trigger] w.to_multiset().count(x) <= cands.to_multiset().count(x) by {
                assert(wr.to_multiset().count(x) <= rest.to_multiset().count(x));
            }
            assert forall|k: int| 0 <= k < w.len() implies exists|j: int|
                0 <= j < cands.len() && #[trigger] w[k] == cands[j] by {
                let j = choose|j: int| 0 <= j < rest.len() && #[trigger] wr[k] == rest[j];
                assert(w[k] == cands[j]);
            }
            assert forall|k1: int, k2: int| 0 <= k1 < k2 < w.len() implies exists|j1: int, j2: int|
                0 <= j1 < j2 < cands.len() && #[trigger] w[k1] == cands[j1] && #[trigger] w[k2]
                    == cands[j2] by {
                let (j1, j2) = choose|j1: int, j2: int|
                    0 <= j1 < j2 < rest.len() && #[trigger] wr[k1] == rest[j1] && #[trigger] wr[k2]
                        == rest[j2];
                assert(w[k1] == cands[j1] && w[k2] == cands[j2]);
            }
        } else {
            assert(w == wr.push(cands.last()));
            assert(w.to_multiset() =~= wr.to_multiset().insert(cands.last()));
            assert forall|x: Article|
                #[trigger] w.to_multiset().count(x) <= cands.to_multiset().count(x) by {
                assert(wr.to_multiset().count(x) <= rest.to_multiset().count(x));
            }
            assert forall|k: int| 0 <= k < w.len() implies exists|j: int|
                0 <= j < cands.len() && #[trigger] w[k] == cands[j] by {
                if k < w.len() - 1 {
                    let j = choose|j: int| 0 <= j < rest.len() && #[trigger] wr[k] == rest[j];
                    assert(w[k] == cands[j]);
                } else {
                    assert(w[k] == cands[cands.len() - 1]);
                }
            }
            assert forall|k1: int, k2: int| 0 <= k1 < k2 < w.len() implies exists|j1: int, j2: int|
                0 <= j1 < j2 < cands.len() && #[trigger] w[k1] == cands[j1] && #[trigger] w[k2]
                    == cands[j2] by {
                if k2 < w.len() - 1 {
                    let (j1, j2) = choose|j1: int, j2: int|
                        0 <= j1 < j2 < rest.len() && #[trigger] wr[k1] == rest[j1]
                            && #[trigger] wr[k2] == rest[j2];
                    assert(w[k1] == cands[j1] && w[k2] == cands[j2]);
                } else {
                    let j1 = choose|j: int| 0 <= j < rest.len() && #[trigger] wr[k1] == rest[j];
                    assert(w[k1] == cands[j1]);
                    assert(w[k2] == cands[cands.len() - 1]);
                }
            }
            if ex.len() == 0 {
                assert(w =~= cands);
            }
        }
        if ex.len() == 0 {
            assert(wr == rest);
            assert(!list_match(ex, cands.last()));
            assert(w =~= cands);
        }
    }
}

/// How many of these articles carry some excluded pattern value.
pub open spec fn excluded_count(s: Seq<Article>, pats: Seq<ReadingPattern>) -> int
    decreases s.len(),
{
    if s.len() == 0 {
        0
    } else {
        excluded_count(s.drop_last(), pats) + if excluded_match(pats, s.last()) {
            1 as int
        } else {
            0 as int
        }
    }
}

/// How many of these articles carry some value of the list.
pub open spec fn list_count(s: Seq<Article>, ex: Seq<String>) -> int
    decreases s.len(),
{
    if s.len() == 0 {
        0
    } else {
        list_count(s.drop_last(), ex) + if list_match(ex, s.last()) {
            1 as int
        } else {
            0 as int
        }
    }
}

proof fn lemma_excluded_count_bounds(s: Seq<Article>, pats: Seq<ReadingPattern>)
    ensures
        0 <= excluded_count(s, pats) <= s.len(),
    decreases s.len(),
{
    if s.len() > 0 {
        lemma_excluded_count_bounds(s.drop_last(), pats);
    }
}

/// The exclusion filter removes exactly the matching candidates.
proof fn lemma_surfaced_len(cands: Seq<Article>, ex: Seq<String>)
    ensures
        surfaced(cands, ex).len() == cands.len() - list_count(cands, ex),
    decreases cands.len(),
{
    if cands.len() > 0 {
        lemma_surfaced_len(cands.drop_last(), ex);
    }
}

proof fn lemma_list_count_is_excluded_count(
    s: Seq<Article>,
    ex: Seq<String>,
    pats: Seq<ReadingPattern>,
)
    requires
        forall|a: Article| #[trigger] list_match(ex, a) == excluded_match(pats, a),
    ensures
        list_count(s, ex) == excluded_count(s, pats),
    decreases s.len(),
{
    if s.len() > 0 {
        lemma_list_count_is_excluded_count(s.drop_last(), ex, pats);
    }
}

proof fn lemma_excluded_count_remove(s: Seq<Article>, j: int, pats: Seq<ReadingPattern>)
    requires
        0 <= j < s.len(),
    ensures
        excluded_count(s, pats) == excluded_count(s.remove(j), pats) + if excluded_match(
            pats,
            s[j],
        ) {
            1 as int
        } else {
            0 as int
        },
    decreases s.len(),
{
    if j == s.len() - 1 {
        assert(s.remove(j) =~= s.drop_last());
    } else {
        assert(s.remove(j).drop_last() =~= s.drop_last().remove(j));
        assert(s.remove(j).last() == s.last());
        lemma_excluded_count_remove(s.drop_last(), j, pats);
    }
}

/// Fewer articles carry an excluded value in any part of a collection than
/// in the whole of it.
proof fn lemma_excluded_count_le(a: Seq<Article>, b: Seq<Article>, pats: Seq<ReadingPattern>)
    requires
        forall|x: Article| #[trigger] a.to_multiset().count(x) <= b.to_multiset().count(x),
    ensures
        excluded_count(a, pats) <= excluded_count(b, pats),
    decreases a.len(),
{
    broadcast use vstd::seq_lib::group_to_multiset_ensures;

    if a.len() == 0 {
        lemma_excluded_count_bounds(b, pats);
    } else {
        let x = a.last();
        let ad = a.drop_last();
        assert(ad.push(x) =~= a);
        assert(a.to_multiset() =~= ad.to_multiset().insert(x));
        assert(a.to_multiset().count(x) > 0) by {
            assert(a[a.len() - 1] == x);
            assert(a.contains(x));
        }
        assert(b.to_multiset().count(x) > 0);
        assert(b.contains(x));
        let j = choose|j: int| 0 <= j < b.len() && b[j] == x;
        let bd = b.remove(j);
        assert(bd.to_multiset() =~= b.to_multiset().remove(x));
        assert forall|y: Article|
            #[trigger] ad.to_multiset().count(y) <= bd.to_multiset().count(y) by {
            assert(ad.to_multiset() =~= a.to_multiset().remove(x));
        }
        lemma_excluded_count_le(ad, bd, pats);
        lemma_excluded_count_remove(b, j, pats);
    }
}

/// Whether some excluded value occurs in the article, case-insensitively.
fn list_match_exec(ex: &Vec<String>, a: &Article) -> (r: bool)
    ensures
        r == list_match(ex@, *a),
{
    let title_lower = lowercase(a.title.as_str());
    let mut i: usize = 0;
    while i < ex.len()
        invariant
            i <= ex@.len(),
            title_lower@ == lower_of(a.title@),
            forall|q: int| 0 <= q < i ==> !value_hits((#[trigger] ex@[q])@, *a),
        decreases ex@.len() - i,
    {
        let v_lower = lowercase(ex[i].as_str());
        if str_contains(title_lower.as_str(), v_lower.as_str()) {
            return true;
        }
        match &a.summary {
            Some(s) => {
                let s_lower = lowercase(s.as_str());
                if str_contains(s_lower.as_str(), v_lower.as_str()) {
                    return true;
                }
            },
            None => {},
        }
        i += 1;
    }
    false
}

// ---------------------------------------------------------------------------
// The surfacer.
// ---------------------------------------------------------------------------

/// Selects up to `limit` unread articles for the reader: candidates are
/// ranked by summed topic score over the inclusion patterns (or sampled
/// without ranking when there are none), articles carrying an excluded
/// value in title or summary are removed, and the survivors are cut to
/// `limit` in their ranked order.
/// The values of the inclusion patterns, in order.
pub open spec fn inclusion_values(pats: Seq<ReadingPattern>) -> Seq<String>
    decreases pats.len(),
{
    if pats.len() == 0 {
        Seq::empty()
    } else {
        let rest = inclusion_values(pats.drop_last());
        if is_inclusion(pats.last()) {
            rest.push(pats.last().value)
        } else {
            rest
        }
    }
}

/// The values of the exclusion patterns, in order.
pub open spec fn exclusion_values(pats: Seq<ReadingPattern>) -> Seq<String>
    decreases pats.len(),
{
    if pats.len() == 0 {
        Seq::empty()
    } else {
        let rest = exclusion_values(pats.drop_last());
        if is_exclusion(pats.last()) {
            rest.push(pats.last().value)
        } else {
            rest
        }
    }
}

/// The partitioned value lists carry exactly the membership of the
/// patterns they came from.
proof fn lemma_values_equiv(pats: Seq<ReadingPattern>)
    ensures
        forall|t: Seq<char>|
            #[trigger] in_topic_set(t, inclusion_values(pats)) == in_inclusion(pats, t),
        forall|a: Article|
            #[trigger] list_match(exclusion_values(pats), a) == excluded_match(pats, a),
        (inclusion_values(pats).len() > 0) == has_inclusion(pats),
        (exclusion_values(pats).len() > 0) == has_exclusion(pats),
    decreases pats.len(),
{
    if pats.len() == 0 {
    } else {
        let rest = pats.drop_last();
        assert(forall|p: int| 0 <= p < rest.len() ==> #[trigger] rest[p] == pats[p]);
        lemma_values_equiv(rest);
        let fi = inclusion_values(pats);
        let wi = inclusion_values(rest);
        let fe = exclusion_values(pats);
        let we = exclusion_values(rest);
        assert forall|t: Seq<char>|
            #[trigger] in_topic_set(t, fi) == in_inclusion(pats, t) by {
            if in_topic_set(t, fi) {
                let k = choose|k: int| 0 <= k < fi.len() && (#[trigger] fi[k])@ == t;
                if is_inclusion(pats.last()) && k == fi.len() - 1 {
                    assert(pats[pats.len() - 1].value@ == t);
                    assert(is_inclusion(pats[pats.len() - 1]));
                } else {
                    assert(fi[k] == wi[k]);
                    assert(in_topic_set(t, wi));
                    assert(in_inclusion(rest, t));
                    let q = choose|q: int|
                        0 <= q < rest.len() && is_inclusion(#[trigger] rest[q]) && rest[q].value@
                            == t;
                    assert(is_inclusion(pats[q]) && pats[q].value@ == t);
                }
            }
            if in_inclusion(pats, t) {
                let q = choose|q: int|
                    0 <= q < pats.len() && is_inclusion(#[trigger] pats[q]) && pats[q].value@
                        == t;
                if q == pats.len() - 1 {
                    assert(fi[fi.len() - 1]@ == t);
                    assert(in_topic_set(t, fi));
                } else {
                    assert(is_inclusion(rest[q]) && rest[q].value@ == t);
                    assert(in_inclusion(rest, t));
                    assert(in_topic_set(t, wi));
                    let k = choose|k: int| 0 <= k < wi.len() && (#[trigger] wi[k])@ == t;
                    if is_inclusion(pats.last()) {
                        assert(fi[k] == wi[k]);
                        assert(in_topic_set(t, fi));
                    } else {
                        assert(fi == wi);
                        assert(in_topic_set(t, fi));
                    }
                }
            }
        }
        assert forall|a: Article|
            #[trigger] list_match(fe, a) == excluded_match(pats, a) by {
            if list_match(fe, a) {
                let k = choose|k: int| 0 <= k < fe.len() && value_hits((#[trigger] fe[k])@, a);
                if is_exclusion(pats.last()) && k == fe.len() - 1 {
                    assert(value_hits(pats[pats.len() - 1].value@, a));
                    assert(is_exclusion(pats[pats.len() - 1]));
                } else {
                    assert(fe[k] == we[k]);
                    assert(list_match(we, a));
                    assert(excluded_match(rest, a));
                    let q = choose|q: int|
                        0 <= q < rest.len() && is_exclusion(#[trigger] rest[q]) && value_hits(
                            rest[q].value@,
                            a,
                        );
                    assert(is_exclusion(pats[q]) && value_hits(pats[q].value@, a));
                }
            }
            if excluded_match(pats, a) {
                let q = choose|q: int|
                    0 <= q < pats.len() && is_exclusion(#[trigger] pats[q]) && value_hits(
                        pats[q].value@,
                        a,
                    );
                if q == pats.len() - 1 {
                    assert(value_hits(fe[fe.len() - 1]@, a));
                    assert(list_match(fe, a));
                } else {
                    assert(is_exclusion(rest[q]) && value_hits(rest[q].value@, a));
                    assert(excluded_match(rest, a));
                    assert(list_match(we, a));
                    let k = choose|k: int| 0 <= k < we.len() && value_hits((#[trigger] we[k])@, a);
                    if is_exclusion(pats.last()) {
                        assert(fe[k] == we[k]);
                        assert(value_hits(fe[k]@, a));
                    } else {
                        assert(fe == we);
                        assert(value_hits(fe[k]@, a));
                    }
                }
            }
        }
        assert((fi.len() > 0) == has_inclusion(pats)) by {
            if fi.len() > 0 {
                if is_inclusion(pats.last()) {
                    assert(is_inclusion(pats[pats.len() - 1]));
                } else {
                    assert(wi.len() > 0);
                    let q = choose|q: int| 0 <= q < rest.len() && is_inclusion(#[trigger] rest[q]);
                    assert(is_inclusion(pats[q]));
                }
            }
            if has_inclusion(pats) {
                let q = choose|q: int| 0 <= q < pats.len() && is_inclusion(#[trigger] pats[q]);
                if q == pats.len() - 1 {
                } else {
                    assert(is_inclusion(rest[q]));
                    assert(has_inclusion(rest));
                }
            }
        }
        assert((fe.len() > 0) == has_exclusion(pats)) by {
            if fe.len() > 0 {
                if is_exclusion(pats.last()) {
                    assert(is_exclusion(pats[pats.len() - 1]));
                } else {
                    assert(we.len() > 0);
                    let q = choose|q: int| 0 <= q < rest.len() && is_exclusion(#[trigger] rest[q]);
                    assert(is_exclusion(pats[q]));
                }
            }
            if has_exclusion(pats) {
                let q = choose|q: int| 0 <= q < pats.len() && is_exclusion(#[trigger] pats[q]);
                if q == pats.len() - 1 {
                } else {
                    assert(is_exclusion(rest[q]));
                    assert(has_exclusion(rest));
                }
            }
        }
    }
}

/// Splits the patterns into the ranking topic values and the excluded
/// values.
fn partition_patterns(pats: &Vec<ReadingPattern>) -> (r: (Vec<String>, Vec<String>))
    ensures
        r.0@ == inclusion_values(pats@),
        r.1@ == exclusion_values(pats@),
{
    let mut topics: Vec<String> = Vec::new();
    let mut excluded: Vec<String> = Vec::new();
    let mut i: usize = 0;
    while i < pats.len()
        invariant
            i <= pats@.len(),
            topics@ == inclusion_values(pats@.take(i as int)),
            excluded@ == exclusion_values(pats@.take(i as int)),
        decreases pats@.len() - i,
    {
        proof {
            assert(pats@.take(i as int + 1).drop_last() =~= pats@.take(i as int));
            assert(pats@.take(i as int + 1).last() == pats@[i as int]);
            reveal_strlit("topic");
            reveal_strlit("keyword");
            reveal_strlit("excluded");
            assert("topic"@.len() == 5 && "keyword"@.len() == 7 && "excluded"@.len() == 8);
        }
        let is_topic = crate::text::str_eq(pats[i].pattern_type.as_str(), "topic");
        let is_keyword = crate::text::str_eq(pats[i].pattern_type.as_str(), "keyword");
        let is_excl = crate::text::str_eq(pats[i].pattern_type.as_str(), "excluded");
        if is_topic || is_keyword {
            topics.push(pats[i].value.clone());
        } else if is_excl {
            excluded.push(pats[i].value.clone());
        }
        i += 1;
    }
    proof {
        assert(pats@.take(pats@.len() as int) =~= pats@);
    }
    (topics, excluded)
}

/// Membership in the partitioned lists matches membership over the stored
/// patterns, which the returned list is a reordering of.
proof fn lemma_partition_equiv(
    stored: Seq<ReadingPattern>,
    pats: Seq<ReadingPattern>,
    topics: Seq<String>,
    excluded: Seq<String>,
)
    requires
        pats.to_multiset() == stored.to_multiset(),
        topics == inclusion_values(pats),
        excluded == exclusion_values(pats),
    ensures
        forall|t: Seq<char>| #[trigger] in_topic_set(t, topics) == in_inclusion(stored, t),
        forall|a: Article| #[trigger] list_match(excluded, a) == excluded_match(stored, a),
        (topics.len() > 0) == has_inclusion(stored),
        (excluded.len() > 0) == has_exclusion(stored),
{
    broadcast use vstd::seq_lib::group_to_multiset_ensures;

    lemma_values_equiv(pats);
    assert forall|t: Seq<char>| #[trigger] in_inclusion(pats, t) == in_inclusion(stored, t) by {
        if in_inclusion(pats, t) {
            let q = choose|q: int|
                0 <= q < pats.len() && is_inclusion(#[trigger] pats[q]) && pats[q].value@ == t;
            assert(pats.contains(pats[q]));
            assert(stored.to_multiset().count(pats[q]) > 0);
            assert(stored.contains(pats[q]));
            let q2 = choose|q2: int| 0 <= q2 < stored.len() && stored[q2] == pats[q];
            assert(is_inclusion(stored[q2]) && stored[q2].value@ == t);
        }
        if in_inclusion(stored, t) {
            let q2 = choose|q2: int|
                0 <= q2 < stored.len() && is_inclusion(#[trigger] stored[q2]) && stored[q2].value@
                    == t;
            assert(stored.contains(stored[q2]));
            assert(pats.to_multiset().count(stored[q2]) > 0);
            assert(pats.contains(stored[q2]));
            let q = choose|q: int| 0 <= q < pats.len() && pats[q] == stored[q2];
            assert(is_inclusion(pats[q]) && pats[q].value@ == t);
        }
    }
    assert forall|a: Article| #[trigger] excluded_match(pats, a) == excluded_match(stored, a) by {
        if excluded_match(pats, a) {
            let q = choose|q: int|
                0 <= q < pats.len() && is_exclusion(#[trigger] pats[q]) && value_hits(
                    pats[q].value@,
                    a,
                );
            assert(pats.contains(pats[q]));
            assert(stored.to_multiset().count(pats[q]) > 0);
            assert(stored.contains(pats[q]));
            let q2 = choose|q2: int| 0 <= q2 < stored.len() && stored[q2] == pats[q];
            assert(is_exclusion(stored[q2]) && value_hits(stored[q2].value@, a));
        }
        if excluded_match(stored, a) {
            let q2 = choose|q2: int|
                0 <= q2 < stored.len() && is_exclusion(#[trigger] stored[q2]) && value_hits(
                    stored[q2].value@,
                    a,
                );
            assert(stored.contains(stored[q2]));
            assert(pats.to_multiset().count(stored[q2]) > 0);
            assert(pats.contains(stored[q2]));
            let q = choose|q: int| 0 <= q < pats.len() && pats[q] == stored[q2];
            assert(is_exclusion(pats[q]) && value_hits(pats[q].value@, a));
        }
    }
    assert(has_inclusion(pats) == has_inclusion(stored)) by {
        if has_inclusion(pats) {
            let q = choose|q: int| 0 <= q < pats.len() && is_inclusion(#[trigger] pats[q]);
            assert(in_inclusion(pats, pats[q].value@));
            assert(in_inclusion(stored, pats[q].value@));
            let q2 = choose|q2: int|
                0 <= q2 < stored.len() && is_inclusion(#[trigger] stored[q2]) && stored[q2].value@
                    == pats[q].value@;
        }
        if has_inclusion(stored) {
            let q2 = choose|q2: int| 0 <= q2 < stored.len() && is_inclusion(#[trigger] stored[q2]);
            assert(in_inclusion(stored, stored[q2].value@));
            assert(in_inclusion(pats, stored[q2].value@));
            let q = choose|q: int|
                0 <= q < pats.len() && is_inclusion(#[trigger] pats[q]) && pats[q].value@
                    == stored[q2].value@;
        }
    }
    assert(has_exclusion(pats) == has_exclusion(stored)) by {
        if has_exclusion(pats) {
            let q = choose|q: int| 0 <= q < pats.len() && is_exclusion(#[trigger] pats[q]);
            assert(pats.contains(pats[q]));
            assert(stored.to_multiset().count(pats[q]) > 0);
            assert(stored.contains(pats[q]));
            let q2 = choose|q2: int| 0 <= q2 < stored.len() && stored[q2] == pats[q];
            assert(is_exclusion(stored[q2]));
        }
        if has_exclusion(stored) {
            let q2 = choose|q2: int| 0 <= q2 < stored.len() && is_exclusion(#[trigger] stored[q2]);
            assert(stored.contains(stored[q2]));
            assert(pats.to_multiset().count(stored[q2]) > 0);
            assert(pats.contains(stored[q2]));
            let q = choose|q: int| 0 <= q < pats.len() && pats[q] == stored[q2];
            assert(is_exclusion(pats[q]));
        }
    }
}



/// Nothing beyond the unread selection can be surfaced.
proof fn lemma_surfacer_counts(usel: Seq<Article>, cands: Seq<Article>, ex: Seq<String>, m: int)
    requires
        forall|x: Article| #[trigger] cands.to_multiset().count(x) <= usel.to_multiset().count(x),
        0 <= m <= surfaced(cands, ex).len(),
    ensures
        forall|x: Article|
            #[trigger] surfaced(cands, ex).take(m).to_multiset().count(x)
                <= usel.to_multiset().count(x),
{
    let kept = surfaced(cands, ex);
    lemma_surfaced_props(cands, ex);
    crate::order::lemma_take_multiset_subset(kept, m);
    assert forall|x: Article|
        #[trigger] kept.take(m).to_multiset().count(x) <= usel.to_multiset().count(x) by {
        assert(kept.take(m).to_multiset().count(x) <= kept.to_multiset().count(x));
        assert(kept.to_multiset().count(x) <= cands.to_multiset().count(x));
    }
}

/// No surfaced article carries an excluded value.
proof fn lemma_surfacer_excluded(
    patterns: Seq<ReadingPattern>,
    cands: Seq<Article>,
    ex: Seq<String>,
    m: int,
)
    requires
        forall|a: Article| #[trigger] list_match(ex, a) == excluded_match(patterns, a),
        0 <= m <= surfaced(cands, ex).len(),
    ensures
        forall|k: int|
            0 <= k < m ==> !excluded_match(patterns, #[trigger] surfaced(cands, ex).take(m)[k]),
{
    let kept = surfaced(cands, ex);
    lemma_surfaced_props(cands, ex);
    assert forall|k: int|
        0 <= k < m implies !excluded_match(patterns, #[trigger] kept.take(m)[k]) by {
        assert(kept.take(m)[k] == kept[k]);
        assert(!list_match(ex, kept[k]));
    }
}

/// The ranked order survives the exclusion filter and the cut.
proof fn lemma_surfacer_order(
    patterns: Seq<ReadingPattern>,
    topic_rows: Seq<crate::models::TopicRow>,
    topics: Seq<String>,
    cands: Seq<Article>,
    ex: Seq<String>,
    m: int,
)
    requires
        forall|t: Seq<char>| #[trigger] in_topic_set(t, topics) == in_inclusion(patterns, t),
        forall|i: int, j: int|
            0 <= i < j < cands.len() ==> art_score(topic_rows, topics, cands[i].id) >= art_score(
                topic_rows,
                topics,
                cands[j].id,
            ),
        0 <= m <= surfaced(cands, ex).len(),
    ensures
        forall|i: int, j: int|
            0 <= i < j < m ==> incl_score(
                topic_rows,
                patterns,
                surfaced(cands, ex).take(m)[i].id,
            ) >= incl_score(topic_rows, patterns, surfaced(cands, ex).take(m)[j].id),
{
    let kept = surfaced(cands, ex);
    lemma_surfaced_props(cands, ex);
    assert forall|i2: int, j2: int|
        0 <= i2 < j2 < m implies incl_score(topic_rows, patterns, kept.take(m)[i2].id)
        >= incl_score(topic_rows, patterns, kept.take(m)[j2].id) by {
        assert(kept.take(m)[i2] == kept[i2] && kept.take(m)[j2] == kept[j2]);
        let (c1, c2) = choose|c1: int, c2: int|
            0 <= c1 < c2 < cands.len() && #[trigger] kept[i2] == cands[c1] && #[trigger] kept[j2]
                == cands[c2];
        assert(art_score(topic_rows, topics, cands[c1].id) >= art_score(
            topic_rows,
            topics,
            cands[c2].id,
        ));
        lemma_incl_score_eq(topic_rows, topics, patterns, cands[c1].id);
        lemma_incl_score_eq(topic_rows, topics, patterns, cands[c2].id);
    }
}

/// With nothing excluded the filter keeps every candidate.
proof fn lemma_surfacer_full(cands: Seq<Article>, ex: Seq<String>)
    requires
        ex.len() == 0,
    ensures
        surfaced(cands, ex) == cands,
{
    lemma_surfaced_props(cands, ex);
}

#[verifier::rlimit(50)]
pub fn get_serendipity_articles(db: &Database, limit: i32) -> (r: Result<Vec<Article>, PatinaError>)
    requires
        db.wf(),
        0 <= limit <= i32::MAX / 2,
    ensures
        (match r {
            Ok(v) => {
                let usel = articles_sel(db.articles@, db.feeds@, |a: Article| !a.is_read);
                &&& v@.len() <= limit
                &&& forall|x: Article|
                    #[trigger] v@.to_multiset().count(x) <= usel.to_multiset().count(x)
                &&& forall|k: int|
                    0 <= k < v@.len() ==> !excluded_match(db.patterns@, #[trigger] v@[k])
                &&& (has_inclusion(db.patterns@) ==> forall|i: int, j: int|
                    0 <= i < j < v@.len() ==> incl_score(db.topics@, db.patterns@, v@[i].id)
                        >= incl_score(db.topics@, db.patterns@, v@[j].id))
                &&& (!has_exclusion(db.patterns@) ==> v@.len() == vstd::math::min(
                    limit as int,
                    usel.len() as int,
                ))
                &&& v@.len() >= vstd::math::min(
                    limit as int,
                    vstd::math::min(2 * limit as int, usel.len() as int) - excluded_count(
                        usel,
                        db.patterns@,
                    ),
                )
            },
            Err(_) => false,
        }),
{
    let pats = match db.get_reading_patterns() {
        Ok(p) => p,
        Err(e) => {
            return Err(e);
        },
    };
    let parts = partition_patterns(&pats);
    let topics = parts.0;
    let excluded = parts.1;
    proof {
        lemma_partition_equiv(db.patterns@, pats@, topics@, excluded@);
    }
    let cands = match db.get_unread_articles_with_topics(&topics, limit * 2) {
        Ok(c) => c,
        Err(e) => {
            return Err(e);
        },
    };
    // remove candidates carrying an excluded value
    let mut out: Vec<Article> = Vec::new();
    let mut j: usize = 0;
    while j < cands.len()
        invariant
            j <= cands@.len(),
            out@ == surfaced(cands@.take(j as int), excluded@),
        decreases cands@.len() - j,
    {
        proof {
            assert(cands@.take(j as int + 1).drop_last() =~= cands@.take(j as int));
            assert(cands@.take(j as int + 1).last() == cands@[j as int]);
        }
        if !list_match_exec(&excluded, &cands[j]) {
            out.push(cands[j].clone());
        }
        j += 1;
    }
    proof {
        assert(cands@.take(cands@.len() as int) =~= cands@);
    }
    let m: usize = if (limit as usize) < out.len() {
        limit as usize
    } else {
        out.len()
    };
    let ghost kept = out@;
    out.truncate(m);
    proof {
        assert(out@ =~= kept.take(m as int));
        let usel = articles_sel(db.articles@, db.feeds@, |a: Article| !a.is_read);
        lemma_surfacer_counts(usel, cands@, excluded@, m as int);
        lemma_surfacer_excluded(db.patterns@, cands@, excluded@, m as int);
        if has_inclusion(db.patterns@) {
            lemma_surfacer_order(
                db.patterns@,
                db.topics@,
                topics@,
                cands@,
                excluded@,
                m as int,
            );
        }
        if !has_exclusion(db.patterns@) {
            lemma_surfacer_full(cands@, excluded@);
            assert(kept == cands@);
        }
        // at most the matching unread articles can be filtered away
        lemma_surfaced_len(cands@, excluded@);
        lemma_list_count_is_excluded_count(cands@, excluded@, db.patterns@);
        lemma_excluded_count_le(cands@, usel, db.patterns@);
    }
    Ok(out)
}

} // verus!
