use vstd::prelude::*;
use vstd::relations::sorted_by;
use vstd::string::StrSliceExecFns;
use vstd::multiset::Multiset;
use crate::models::{Article, Feed, TopicRow};

verus! {

broadcast use vstd::seq_lib::group_to_multiset_ensures;

// ---------------------------------------------------------------------------
// Multiset helpers shared by the sorting and truncation proofs.
// ---------------------------------------------------------------------------

pub proof fn lemma_to_multiset_concat<T>(a: Seq<T>, b: Seq<T>)
    ensures
        (a + b).to_multiset() == a.to_multiset().add(b.to_multiset()),
    decreases b.len(),
{
    if b.len() == 0 {
        assert(a + b =~= a);
        assert(b.to_multiset().len() == 0);
        assert(b.to_multiset() =~= Multiset::<T>::empty());
        assert((a + b).to_multiset() =~= a.to_multiset().add(b.to_multiset()));
    } else {
        lemma_to_multiset_concat(a, b.drop_last());
        assert(a + b =~= (a + b.drop_last()).push(b.last()));
        assert(b =~= b.drop_last().push(b.last()));
        assert((a + b).to_multiset() =~= a.to_multiset().add(b.to_multiset()));
    }
}

pub proof fn lemma_take_multiset_subset<T>(s: Seq<T>, k: int)
    requires
        0 <= k <= s.len(),
    ensures
        forall|x: T|
            #[trigger] s.take(k).to_multiset().count(x) <= s.to_multiset().count(x),
{
    assert(s =~= s.take(k) + s.skip(k));
    lemma_to_multiset_concat(s.take(k), s.skip(k));
}

/// Removing index `i` by swapping in the last element removes exactly one
/// occurrence of `s[i]` from the contents.
pub proof fn lemma_swap_remove_multiset<T>(s: Seq<T>, i: int)
    requires
        0 <= i < s.len(),
    ensures
        s.update(i, s.last()).drop_last().to_multiset() == s.to_multiset().remove(s[i]),
{
    if i == s.len() - 1 {
        assert(s.update(i, s.last()) =~= s);
        assert(s.drop_last() =~= s.remove(i));
        assert(s.remove(i).to_multiset() =~= s.to_multiset().remove(s[i]));
    } else {
        let t = s.update(i, s.last());
        assert(t.remove(i) =~= s.remove(i));
        assert(t.drop_last() =~= t.remove(t.len() - 1));
        assert(t.remove(t.len() - 1).to_multiset() =~= t.to_multiset().remove(t[t.len() - 1]));
        assert(t.remove(i).to_multiset() =~= t.to_multiset().remove(t[i]));
        assert(s.remove(i).to_multiset() =~= s.to_multiset().remove(s[i]));
        assert(t[i] == s.last());
        assert(t[t.len() - 1] == s.last());
        assert(t.to_multiset().remove(s.last()).insert(s.last()) =~= t.to_multiset()) by {
            assert(t.to_multiset().count(s.last()) > 0) by {
                assert(t[i] == s.last());
                assert(t.contains(s.last()));
            }
        }
        assert(s.to_multiset().remove(s[i]).insert(s.last()) =~= s.to_multiset().remove(
            s[i],
        ).insert(s.last()));
        assert(t.to_multiset() =~= s.to_multiset().remove(s[i]).insert(s.last())) by {
            assert(t.remove(i).to_multiset() == s.remove(i).to_multiset());
            assert(t.to_multiset().remove(t[i]) == s.to_multiset().remove(s[i]));
            assert(t.to_multiset().remove(s.last()).insert(s.last()) =~= t.to_multiset());
            assert(t.to_multiset() =~= t.to_multiset().remove(s.last()).insert(s.last()));
        }
        assert(t.drop_last().to_multiset() =~= s.to_multiset().remove(s[i]));
    }
}

/// In a sorted sequence cut at `k`, anything left out of the prefix is
/// dominated by the prefix's last element.
pub proof fn lemma_sorted_cut<T>(s: Seq<T>, k: int, le: spec_fn(T, T) -> bool)
    requires
        sorted_by(s, le),
        0 < k <= s.len(),
    ensures
        forall|x: T|
            s.to_multiset().count(x) > s.take(k).to_multiset().count(x) ==> le(
                s[k - 1],
                x,
            ),
{
    assert(s =~= s.take(k) + s.skip(k));
    lemma_to_multiset_concat(s.take(k), s.skip(k));
    assert forall|x: T|
        s.to_multiset().count(x) > s.take(k).to_multiset().count(x) implies le(s[k - 1], x) by {
        assert(s.skip(k).to_multiset().count(x) > 0);
        assert(s.skip(k).contains(x));
        let j = choose|j: int| 0 <= j < s.skip(k).len() && s.skip(k)[j] == x;
        assert(s[k + j] == x);
        assert(le(s[k - 1], s[k + j]));
    }
}

// ---------------------------------------------------------------------------
// Case-folded lexicographic order on titles (ASCII letters fold).
// ---------------------------------------------------------------------------

pub open spec fn fold_char(c: char) -> int {
    if 65 <= c as u32 <= 90 {
        c as u32 + 32
    } else {
        c as u32 as int
    }
}

pub open spec fn title_le(a: Seq<char>, b: Seq<char>) -> bool
    decreases a.len(),
{
    if a.len() == 0 {
        true
    } else if b.len() == 0 {
        false
    } else if fold_char(a[0]) < fold_char(b[0]) {
        true
    } else if fold_char(a[0]) > fold_char(b[0]) {
        false
    } else {
        title_le(a.drop_first(), b.drop_first())
    }
}

pub proof fn lemma_title_le_total(a: Seq<char>, b: Seq<char>)
    ensures
        title_le(a, b) || title_le(b, a),
    decreases a.len(),
{
    if a.len() == 0 || b.len() == 0 {
    } else if fold_char(a[0]) == fold_char(b[0]) {
        lemma_title_le_total(a.drop_first(), b.drop_first());
    }
}

pub proof fn lemma_title_le_trans(a: Seq<char>, b: Seq<char>, c: Seq<char>)
    requires
        title_le(a, b),
        title_le(b, c),
    ensures
        title_le(a, c),
    decreases a.len(),
{
    if a.len() == 0 {
    } else if b.len() == 0 {
    } else if c.len() == 0 {
    } else {
        if fold_char(a[0]) == fold_char(b[0]) && fold_char(b[0]) == fold_char(c[0]) {
            lemma_title_le_trans(a.drop_first(), b.drop_first(), c.drop_first());
        }
    }
}

fn fold_char_exec(c: char) -> (r: u32)
    ensures
        r as int == fold_char(c),
{
    let u = c as u32;
    if 65 <= u && u <= 90 {
        u + 32
    } else {
        u
    }
}

/// Case-insensitive lexicographic comparison of two strings.
pub fn title_le_exec(a: &str, b: &str) -> (r: bool)
    ensures
        r == title_le(a@, b@),
{
    let la = a.unicode_len();
    let lb = b.unicode_len();
    let mut i: usize = 0;
    proof {
        assert(a@.skip(0) =~= a@);
        assert(b@.skip(0) =~= b@);
    }
    loop
        invariant
            la == a@.len(),
            lb == b@.len(),
            i <= la,
            i <= lb,
            title_le(a@, b@) == title_le(a@.skip(i as int), b@.skip(i as int)),
            title_le(b@, a@) == title_le(b@.skip(i as int), a@.skip(i as int)),
        decreases la - i,
    {
        if i == la {
            proof {
                assert(a@.skip(i as int).len() == 0);
            }
            return true;
        }
        if i == lb {
            proof {
                assert(b@.skip(i as int).len() == 0);
                assert(a@.skip(i as int).len() > 0);
            }
            return false;
        }
        let ca = fold_char_exec(a.get_char(i));
        let cb = fold_char_exec(b.get_char(i));
        proof {
            assert(a@.skip(i as int)[0] == a@[i as int]);
            assert(b@.skip(i as int)[0] == b@[i as int]);
        }
        if ca < cb {
            return true;
        }
        if ca > cb {
            return false;
        }
        proof {
            assert(a@.skip(i as int).drop_first() =~= a@.skip(i as int + 1));
            assert(b@.skip(i as int).drop_first() =~= b@.skip(i as int + 1));
        }
        i += 1;
    }
}

// ---------------------------------------------------------------------------
// Integer recency keys for article orderings.
// ---------------------------------------------------------------------------

/// An order-preserving non-negative image of a signed timestamp.
pub open spec fn shift64(x: i64) -> int {
    x + 0x8000_0000_0000_0000
}

/// Publication time, falling back to fetch time when absent.
pub open spec fn coalesce_key(a: Article) -> int {
    match a.published_at {
        Some(p) => shift64(p),
        None => shift64(a.fetched_at),
    }
}

/// Articles with a publication time rank above all articles without one;
/// within each group, later times rank higher.
pub open spec fn pub_first_key(a: Article) -> int {
    match a.published_at {
        Some(p) => 0x1_0000_0000_0000_0000 + shift64(p),
        None => shift64(a.fetched_at),
    }
}

pub open spec fn time_key(a: Article, pub_first: bool) -> int {
    if pub_first {
        pub_first_key(a)
    } else {
        coalesce_key(a)
    }
}

fn shift64_exec(x: i64) -> (r: u128)
    ensures
        r as int == shift64(x),
{
    ((x as i128) + 9223372036854775808i128) as u128
}

pub fn time_key_exec(a: &Article, pub_first: bool) -> (r: u128)
    ensures
        r as int == time_key(*a, pub_first),
{
    match a.published_at {
        Some(p) => {
            let s = shift64_exec(p);
            if pub_first {
                s + 18446744073709551616u128
            } else {
                s
            }
        },
        None => shift64_exec(a.fetched_at),
    }
}

// ---------------------------------------------------------------------------
// Topic-score ranking key.
// ---------------------------------------------------------------------------

/// `t` is one of the ranking topics.
pub open spec fn in_topic_set(t: Seq<char>, tset: Seq<String>) -> bool {
    exists|k: int| 0 <= k < tset.len() && #[trigger] tset[k]@ == t
}

/// Sum of the scores of the associations of article `aid` whose topic is in
/// the ranking set.
pub open spec fn art_score(rows: Seq<TopicRow>, tset: Seq<String>, aid: i64) -> int
    decreases rows.len(),
{
    if rows.len() == 0 {
        0
    } else {
        art_score(rows.drop_last(), tset, aid) + if rows.last().article_id == aid && in_topic_set(
            rows.last().topic@,
            tset,
        ) {
            rows.last().score as int
        } else {
            0
        }
    }
}

proof fn lemma_art_score_nonneg(rows: Seq<TopicRow>, tset: Seq<String>, aid: i64)
    ensures
        0 <= art_score(rows, tset, aid),
        art_score(rows, tset, aid) <= rows.len() * (u64::MAX as int),
    decreases rows.len(),
{
    if rows.len() == 0 {
    } else {
        lemma_art_score_nonneg(rows.drop_last(), tset, aid);
        assert((rows.len() - 1) * (u64::MAX as int) + (u64::MAX as int) == rows.len() * (
        u64::MAX as int)) by (nonlinear_arith);
    }
}

pub fn in_topic_set_exec(tset: &Vec<String>, t: &String) -> (r: bool)
    ensures
        r == in_topic_set(t@, tset@),
{
    let mut k: usize = 0;
    while k < tset.len()
        invariant
            k <= tset@.len(),
            forall|q: int| 0 <= q < k ==> tset@[q]@ != t@,
        decreases tset@.len() - k,
    {
        if crate::text::str_eq(tset[k].as_str(), t.as_str()) {
            return true;
        }
        k += 1;
    }
    false
}

pub fn art_score_exec(rows: &Vec<TopicRow>, tset: &Vec<String>, aid: i64) -> (r: u128)
    ensures
        r as int == art_score(rows@, tset@, aid),
{
    proof {
        lemma_art_score_nonneg(rows@, tset@, aid);
    }
    let mut r: u128 = 0;
    let mut j: usize = 0;
    while j < rows.len()
        invariant
            j <= rows@.len(),
            r as int == art_score(rows@.take(j as int), tset@, aid),
            r as int <= (j as int) * (u64::MAX as int),
        decreases rows@.len() - j,
    {
        proof {
            assert(rows@.take(j as int + 1).drop_last() =~= rows@.take(j as int));
            assert(rows@.take(j as int + 1).last() == rows@[j as int]);
            assert((j as int) * (u64::MAX as int) + (u64::MAX as int) == (j as int + 1) * (
            u64::MAX as int)) by (nonlinear_arith);
            assert((j as int + 1) * (u64::MAX as int) < u128::MAX as int) by (nonlinear_arith)
                requires
                    0 <= j as int + 1 <= u64::MAX as int + 1,
            ;
        }
        if rows[j].article_id == aid && in_topic_set_exec(tset, &rows[j].topic) {
            r = r + rows[j].score as u128;
        }
        j += 1;
    }
    proof {
        assert(rows@.take(rows@.len() as int) =~= rows@);
    }
    r
}

// ---------------------------------------------------------------------------
// Decorate-sort-undecorate: items are paired with a numeric rank, the pairs
// are sorted by rank descending, and the ranks are stripped again.
// ---------------------------------------------------------------------------

/// The items of a sequence of (rank, item) pairs, in order.
pub open spec fn strip_seq<T>(s: Seq<(u128, T)>) -> Seq<T> {
    Seq::new(s.len(), |i: int| s[i].1)
}

pub open spec fn pairs_sorted_desc<T>(s: Seq<(u128, T)>) -> bool {
    forall|i: int, j: int| 0 <= i < j < s.len() ==> (#[trigger] s[i]).0 >= (#[trigger] s[j]).0
}

/// Two sequences with the same contents satisfy the same per-element facts.
pub proof fn lemma_multiset_transfer<T>(a: Seq<T>, b: Seq<T>, p: spec_fn(T) -> bool)
    requires
        a.to_multiset() == b.to_multiset(),
        forall|i: int| 0 <= i < a.len() ==> p(#[trigger] a[i]),
    ensures
        forall|i: int| 0 <= i < b.len() ==> p(#[trigger] b[i]),
{
    assert forall|i: int| 0 <= i < b.len() implies p(b[i]) by {
        assert(b.contains(b[i]));
        assert(b.to_multiset().count(b[i]) > 0);
        assert(a.to_multiset().count(b[i]) > 0);
        assert(a.contains(b[i]));
        let j = choose|j: int| 0 <= j < a.len() && a[j] == b[i];
        assert(p(a[j]));
    }
}

/// A value sitting at two positions is counted at least twice.
pub proof fn lemma_count_ge2<T>(s: Seq<T>, i: int, j: int)
    requires
        0 <= i < j < s.len(),
        s[i] == s[j],
    ensures
        s.to_multiset().count(s[i]) >= 2,
{
    let s0 = s.subrange(0, j);
    let s1 = s.subrange(j, s.len() as int);
    assert(s =~= s0 + s1);
    lemma_to_multiset_concat(s0, s1);
    assert(s0[i] == s[i]);
    assert(s0.contains(s[i]));
    assert(s0.to_multiset().count(s[i]) > 0);
    assert(s1[0] == s[j]);
    assert(s1.contains(s[i]));
    assert(s1.to_multiset().count(s[i]) > 0);
}

/// A reordering keeps keys pairwise distinct.
pub proof fn lemma_distinct_by_transfer<T, S>(a: Seq<T>, b: Seq<T>, f: spec_fn(T) -> S)
    requires
        a.to_multiset() == b.to_multiset(),
        forall|i: int, j: int| 0 <= i < j < a.len() ==> f(#[trigger] a[i]) != f(#[trigger] a[j]),
    ensures
        forall|i: int, j: int| 0 <= i < j < b.len() ==> f(#[trigger] b[i]) != f(#[trigger] b[j]),
{
    assert(a.no_duplicates()) by {
        assert forall|i: int, j: int| 0 <= i < a.len() && 0 <= j < a.len() && i != j implies a[i]
            != a[j] by {
            if i < j {
                assert(f(a[i]) != f(a[j]));
            } else {
                assert(f(a[j]) != f(a[i]));
            }
        }
    }
    a.lemma_multiset_has_no_duplicates();
    assert forall|i: int, j: int| 0 <= i < j < b.len() implies f(#[trigger] b[i]) != f(
        #[trigger] b[j],
    ) by {
        assert(b.contains(b[i]));
        assert(b.contains(b[j]));
        assert(a.to_multiset().count(b[i]) > 0);
        assert(a.to_multiset().count(b[j]) > 0);
        assert(a.contains(b[i]));
        assert(a.contains(b[j]));
        let i2 = choose|q: int| 0 <= q < a.len() && a[q] == b[i];
        let j2 = choose|q: int| 0 <= q < a.len() && a[q] == b[j];
        if i2 == j2 {
            lemma_count_ge2(b, i, j);
            assert(b.to_multiset().count(b[i]) >= 2);
            assert(a.to_multiset().contains(b[i]));
            assert(a.to_multiset().count(b[i]) == 1);
        } else if i2 < j2 {
            assert(f(a[i2]) != f(a[j2]));
        } else {
            assert(f(a[j2]) != f(a[i2]));
        }
    }
}

/// Reordering pairs reorders their items: the stripped contents agree.
pub proof fn lemma_strip_multiset<T>(a: Seq<(u128, T)>, b: Seq<(u128, T)>)
    requires
        a.to_multiset() == b.to_multiset(),
    ensures
        strip_seq(a).to_multiset() == strip_seq(b).to_multiset(),
    decreases a.len(),
{
    if a.len() == 0 {
        assert(b.to_multiset().len() == 0);
        assert(b.len() == 0);
        assert(strip_seq(a) =~= strip_seq(b));
    } else {
        let x = a.last();
        assert(a.contains(x)) by {
            assert(a[a.len() - 1] == x);
        }
        assert(b.to_multiset().count(x) > 0);
        assert(b.contains(x));
        let j = choose|j: int| 0 <= j < b.len() && b[j] == x;
        let a2 = a.drop_last();
        let b2 = b.remove(j);
        assert(b2.to_multiset() =~= b.to_multiset().remove(x));
        assert(a2.push(x) =~= a);
        assert(a.to_multiset() =~= a2.to_multiset().insert(x));
        assert(a2.to_multiset() =~= a.to_multiset().remove(x));
        lemma_strip_multiset(a2, b2);
        assert(strip_seq(a2).push(x.1) =~= strip_seq(a));
        assert(strip_seq(a).to_multiset() =~= strip_seq(a2).to_multiset().insert(x.1));
        assert(strip_seq(b2) =~= strip_seq(b).remove(j));
        assert(strip_seq(b).remove(j).to_multiset() =~= strip_seq(b).to_multiset().remove(
            strip_seq(b)[j],
        ));
        assert(strip_seq(b)[j] == x.1);
        assert(strip_seq(b).contains(x.1)) by {
            assert(strip_seq(b)[j] == x.1);
        }
        assert(strip_seq(b).to_multiset().count(x.1) > 0);
        assert(strip_seq(b).to_multiset() =~= strip_seq(b).to_multiset().remove(x.1).insert(x.1));
        assert(strip_seq(a).to_multiset() =~= strip_seq(b).to_multiset());
    }
}

/// When every pair's rank is determined by its item, counting an item among
/// the stripped contents is counting its pair.
pub proof fn lemma_keyed_count<T>(s: Seq<(u128, T)>, key: spec_fn(T) -> u128, a: T)
    requires
        forall|i: int| 0 <= i < s.len() ==> (#[trigger] s[i]).0 == key(s[i].1),
    ensures
        strip_seq(s).to_multiset().count(a) == s.to_multiset().count((key(a), a)),
    decreases s.len(),
{
    if s.len() == 0 {
        assert(strip_seq(s) =~= Seq::<T>::empty());
        assert(strip_seq(s).to_multiset().len() == 0);
        assert(s.to_multiset().len() == 0);
    } else {
        let s2 = s.drop_last();
        lemma_keyed_count(s2, key, a);
        assert(s2.push(s.last()) =~= s);
        assert(s.to_multiset() =~= s2.to_multiset().insert(s.last()));
        assert(strip_seq(s2).push(s.last().1) =~= strip_seq(s));
        assert(strip_seq(s).to_multiset() =~= strip_seq(s2).to_multiset().insert(s.last().1));
        if s.last().1 == a {
            assert(s.last().0 == key(a));
            assert(s.last() == (key(a), a));
        } else {
            assert(s.last() != (key(a), a));
        }
    }
}

/// Sorts (rank, item) pairs by rank, largest first; the contents are kept.
pub fn sort_pairs_desc<T>(v: &mut Vec<(u128, T)>)
    ensures
        pairs_sorted_desc(final(v)@),
        final(v)@.to_multiset() == old(v)@.to_multiset(),
{
    let ghost orig = v@;
    let mut out: Vec<(u128, T)> = Vec::new();
    proof {
        assert(out@.to_multiset().len() == 0);
        assert(out@.to_multiset().add(v@.to_multiset()) =~= orig.to_multiset());
    }
    while v.len() > 0
        invariant
            out@.to_multiset().add(v@.to_multiset()) == orig.to_multiset(),
            pairs_sorted_desc(out@),
            forall|k: int, x: (u128, T)|
                #![trigger out@[k], v@.to_multiset().count(x)]
                0 <= k < out@.len() && v@.to_multiset().count(x) > 0 ==> out@[k].0 >= x.0,
        decreases v@.len(),
    {
        let mut m: usize = 0;
        let mut j: usize = 1;
        while j < v.len()
            invariant
                v@.len() > 0,
                m < j,
                j <= v@.len(),
                forall|q: int| 0 <= q < j ==> (#[trigger] v@[q]).0 <= v@[m as int].0,
            decreases v@.len() - j,
        {
            if v[m].0 < v[j].0 {
                m = j;
            }
            j += 1;
        }
        let ghost pre = v@;
        let x = v.swap_remove(m);
        proof {
            lemma_swap_remove_multiset(pre, m as int);
            assert(pre[m as int] == x);
            assert(pre.contains(x)) by {
                assert(pre[m as int] == x);
            }
            assert(pre.to_multiset().count(x) > 0);
        }
        out.push(x);
        proof {
            let ghost outpre = out@.drop_last();
            assert(outpre.push(x) =~= out@);
            // the appended pair ranks at most every pair already emitted
            assert(pairs_sorted_desc(out@)) by {
                assert(forall|k: int|
                    0 <= k < outpre.len() ==> (#[trigger] outpre[k]).0 >= x.0);
            }
            // contents are conserved
            assert(out@.to_multiset() =~= outpre.to_multiset().insert(x));
            assert(out@.to_multiset().add(v@.to_multiset()) =~= orig.to_multiset()) by {
                assert(v@.to_multiset() =~= pre.to_multiset().remove(x));
            }
            // every pair still waiting ranks at most every pair emitted
            assert forall|k: int, y: (u128, T)|
                #![trigger out@[k], v@.to_multiset().count(y)]
                0 <= k < out@.len() && v@.to_multiset().count(y) > 0 implies out@[k].0 >= y.0 by {
                assert(v@.to_multiset().count(y) <= pre.to_multiset().count(y));
                assert(pre.to_multiset().count(y) > 0);
                assert(pre.contains(y));
                let q = choose|q: int| 0 <= q < pre.len() && pre[q] == y;
                assert(y.0 <= pre[m as int].0);
                if k < out@.len() - 1 {
                    assert(out@[k] == outpre[k]);
                    assert(pre.to_multiset().count(y) > 0);
                } else {
                    assert(out@[k] == x);
                }
            }
        }
    }
    proof {
        assert(v@.to_multiset().len() == 0);
        assert(out@.to_multiset().add(v@.to_multiset()) =~= out@.to_multiset());
    }
    *v = out;
}

/// Moves the items out of a ranked vector, keeping their order.
pub fn strip_pairs<T>(v: Vec<(u128, T)>) -> (r: Vec<T>)
    ensures
        r@ == strip_seq(v@),
{
    let ghost orig = v@;
    let mut v = v;
    let mut r: Vec<T> = Vec::new();
    while v.len() > 0
        invariant
            orig.len() == r@.len() + v@.len(),
            v@ == orig.skip(r@.len() as int),
            r@ == strip_seq(orig.take(r@.len() as int)),
        decreases v@.len(),
    {
        let ghost n = r@.len() as int;
        let p = v.remove(0);
        proof {
            assert(orig.skip(n)[0] == orig[n]);
            assert(orig.skip(n).remove(0) =~= orig.skip(n + 1));
        }
        r.push(p.1);
        proof {
            assert(r@ =~= strip_seq(orig.take(n + 1))) by {
                assert(orig.take(n + 1)[n] == orig[n]);
                assert(forall|q: int| 0 <= q < n ==> orig.take(n + 1)[q] == orig.take(n)[q]);
            }
        }
    }
    proof {
        assert(orig.take(r@.len() as int) =~= orig);
    }
    r
}

// ---------------------------------------------------------------------------
// Sorting feeds by title, case-insensitively.
// ---------------------------------------------------------------------------

pub open spec fn feeds_sorted(s: Seq<Feed>) -> bool {
    forall|i: int, j: int|
        0 <= i < j < s.len() ==> title_le((#[trigger] s[i]).title@, (#[trigger] s[j]).title@)
}

/// Sorts feeds by title, case-insensitively, ascending; the contents are
/// kept.
pub fn sort_feeds_by_title(v: &mut Vec<Feed>)
    ensures
        feeds_sorted(final(v)@),
        final(v)@.to_multiset() == old(v)@.to_multiset(),
{
    let ghost orig = v@;
    let mut out: Vec<Feed> = Vec::new();
    proof {
        assert(out@.to_multiset().len() == 0);
        assert(out@.to_multiset().add(v@.to_multiset()) =~= orig.to_multiset());
    }
    while v.len() > 0
        invariant
            out@.to_multiset().add(v@.to_multiset()) == orig.to_multiset(),
            feeds_sorted(out@),
            forall|k: int, x: Feed|
                #![trigger out@[k], v@.to_multiset().count(x)]
                0 <= k < out@.len() && v@.to_multiset().count(x) > 0 ==> title_le(
                    out@[k].title@,
                    x.title@,
                ),
        decreases v@.len(),
    {
        // pick the earliest title among those left
        let mut m: usize = 0;
        let mut j: usize = 1;
        proof {
            lemma_title_le_total(v@[0].title@, v@[0].title@);
        }
        while j < v.len()
            invariant
                v@.len() > 0,
                m < j,
                j <= v@.len(),
                forall|q: int| 0 <= q < j ==> title_le(v@[m as int].title@, (#[trigger] v@[q]).title@),
            decreases v@.len() - j,
        {
            if !title_le_exec(v[m].title.as_str(), v[j].title.as_str()) {
                proof {
                    lemma_title_le_total(v@[m as int].title@, v@[j as int].title@);
                    assert forall|q: int| 0 <= q < j + 1 implies title_le(
                        v@[j as int].title@,
                        (#[trigger] v@[q]).title@,
                    ) by {
                        if q == j {
                            lemma_title_le_total(v@[j as int].title@, v@[j as int].title@);
                        } else {
                            lemma_title_le_trans(
                                v@[j as int].title@,
                                v@[m as int].title@,
                                v@[q].title@,
                            );
                        }
                    }
                }
                m = j;
            }
            j += 1;
        }
        let ghost pre = v@;
        let x = v.swap_remove(m);
        proof {
            lemma_swap_remove_multiset(pre, m as int);
            assert(pre[m as int] == x);
            assert(pre.contains(x)) by {
                assert(pre[m as int] == x);
            }
            assert(pre.to_multiset().count(x) > 0);
        }
        out.push(x);
        proof {
            let ghost outpre = out@.drop_last();
            assert(outpre.push(x) =~= out@);
            assert(feeds_sorted(out@)) by {
                assert(forall|k: int|
                    0 <= k < outpre.len() ==> title_le((#[trigger] outpre[k]).title@, x.title@));
            }
            assert(out@.to_multiset() =~= outpre.to_multiset().insert(x));
            assert(out@.to_multiset().add(v@.to_multiset()) =~= orig.to_multiset()) by {
                assert(v@.to_multiset() =~= pre.to_multiset().remove(x));
            }
            assert forall|k: int, y: Feed|
                #![trigger out@[k], v@.to_multiset().count(y)]
                0 <= k < out@.len() && v@.to_multiset().count(y) > 0 implies title_le(
                out@[k].title@,
                y.title@,
            ) by {
                assert(v@.to_multiset().count(y) <= pre.to_multiset().count(y));
                assert(pre.to_multiset().count(y) > 0);
                assert(pre.contains(y));
                let q = choose|q: int| 0 <= q < pre.len() && pre[q] == y;
                assert(title_le(pre[m as int].title@, pre[q].title@));
                if k < out@.len() - 1 {
                    assert(out@[k] == outpre[k]);
                } else {
                    assert(out@[k] == x);
                }
            }
        }
    }
    proof {
        assert(v@.to_multiset().len() == 0);
        assert(out@.to_multiset().add(v@.to_multiset()) =~= out@.to_multiset());
    }
    *v = out;
}

} // verus!
