use vstd::prelude::*;
use crate::models::{
    clone_opt_string, Article, Feed, FeedRow, ParsedArticle, ParsedFeed, ReadingPattern, TopicRow,
};
use crate::order::{
    feeds_sorted, lemma_multiset_transfer, lemma_sorted_cut, lemma_strip_multiset,
    lemma_take_multiset_subset, pairs_sorted_desc, pub_first_key, sort_feeds_by_title,
    sort_pairs_desc, strip_pairs, strip_seq, time_key, time_key_exec,
};
use crate::PatinaError;

verus! {

/// Relies on chrono::Utc::now (its timestamp method): the current UNIX time
/// in seconds.  Nothing is assumed of the value.
#[verifier::external_body]
fn now_ts() -> i64 {
    chrono::Utc::now().timestamp()
}

// ---------------------------------------------------------------------------
// Key predicates over the stored tables.
// ---------------------------------------------------------------------------

pub open spec fn has_feed_id(feeds: Seq<FeedRow>, id: i64) -> bool {
    exists|i: int| 0 <= i < feeds.len() && (#[trigger] feeds[i]).id == id
}

pub open spec fn has_feed_url(feeds: Seq<FeedRow>, url: Seq<char>) -> bool {
    exists|i: int| 0 <= i < feeds.len() && (#[trigger] feeds[i]).url@ == url
}

pub open spec fn has_article_id(articles: Seq<Article>, id: i64) -> bool {
    exists|i: int| 0 <= i < articles.len() && (#[trigger] articles[i]).id == id
}

pub open spec fn has_article_key(articles: Seq<Article>, feed_id: i64, url: Seq<char>) -> bool {
    exists|i: int|
        0 <= i < articles.len() && (#[trigger] articles[i]).feed_id == feed_id && articles[i].url@
            == url
}

pub open spec fn has_pattern_id(ps: Seq<ReadingPattern>, id: i64) -> bool {
    exists|i: int| 0 <= i < ps.len() && (#[trigger] ps[i]).id == id
}

pub open spec fn has_pattern_key(ps: Seq<ReadingPattern>, kind: Seq<char>, value: Seq<char>) -> bool {
    exists|i: int|
        0 <= i < ps.len() && (#[trigger] ps[i]).pattern_type@ == kind && ps[i].value@ == value
}

pub open spec fn has_topic_key(ts: Seq<TopicRow>, article_id: i64, topic: Seq<char>) -> bool {
    exists|i: int|
        0 <= i < ts.len() && (#[trigger] ts[i]).article_id == article_id && ts[i].topic@ == topic
}

/// The association is stored with exactly this score.
pub open spec fn has_topic_score(
    ts: Seq<TopicRow>,
    article_id: i64,
    topic: Seq<char>,
    score: u64,
) -> bool {
    exists|i: int|
        0 <= i < ts.len() && (#[trigger] ts[i]).article_id == article_id && ts[i].topic@ == topic
            && ts[i].score == score
}

// ---------------------------------------------------------------------------
// Uniqueness predicates, named so the invariant reads like the schema.
// ---------------------------------------------------------------------------

pub open spec fn feed_ids_unique(feeds: Seq<FeedRow>) -> bool {
    forall|i: int, j: int|
        0 <= i < j < feeds.len() ==> (#[trigger] feeds[i]).id != (#[trigger] feeds[j]).id
}

pub open spec fn feed_urls_unique(feeds: Seq<FeedRow>) -> bool {
    forall|i: int, j: int|
        0 <= i < j < feeds.len() ==> (#[trigger] feeds[i]).url@ != (#[trigger] feeds[j]).url@
}

pub open spec fn article_ids_unique(articles: Seq<Article>) -> bool {
    forall|i: int, j: int|
        0 <= i < j < articles.len() ==> (#[trigger] articles[i]).id != (#[trigger] articles[j]).id
}

pub open spec fn article_keys_unique(articles: Seq<Article>) -> bool {
    forall|i: int, j: int|
        0 <= i < j < articles.len() ==> !((#[trigger] articles[i]).feed_id
            == (#[trigger] articles[j]).feed_id && articles[i].url@ == articles[j].url@)
}

pub open spec fn pattern_ids_unique(ps: Seq<ReadingPattern>) -> bool {
    forall|i: int, j: int|
        0 <= i < j < ps.len() ==> (#[trigger] ps[i]).id != (#[trigger] ps[j]).id
}

pub open spec fn pattern_keys_unique(ps: Seq<ReadingPattern>) -> bool {
    forall|i: int, j: int|
        0 <= i < j < ps.len() ==> !((#[trigger] ps[i]).pattern_type@
            == (#[trigger] ps[j]).pattern_type@ && ps[i].value@ == ps[j].value@)
}

pub open spec fn topic_keys_unique(ts: Seq<TopicRow>) -> bool {
    forall|i: int, j: int|
        0 <= i < j < ts.len() ==> !((#[trigger] ts[i]).article_id == (#[trigger] ts[j]).article_id
            && ts[i].topic@ == ts[j].topic@)
}

// ---------------------------------------------------------------------------
// Derived values.
// ---------------------------------------------------------------------------

/// How many articles of this feed are unread.
pub open spec fn count_unread(articles: Seq<Article>, feed_id: i64) -> nat
    decreases articles.len(),
{
    if articles.len() == 0 {
        0
    } else {
        count_unread(articles.drop_last(), feed_id) + if articles.last().feed_id == feed_id
            && !articles.last().is_read {
            1 as nat
        } else {
            0 as nat
        }
    }
}

pub proof fn lemma_count_unread_le(articles: Seq<Article>, feed_id: i64)
    ensures
        count_unread(articles, feed_id) <= articles.len(),
    decreases articles.len(),
{
    if articles.len() > 0 {
        lemma_count_unread_le(articles.drop_last(), feed_id);
    }
}

/// The title of the feed with this id, first match.
pub open spec fn feed_title_of(feeds: Seq<FeedRow>, id: i64) -> Option<String>
    decreases feeds.len(),
{
    if feeds.len() == 0 {
        None
    } else if feeds.first().id == id {
        Some(feeds.first().title)
    } else {
        feed_title_of(feeds.drop_first(), id)
    }
}

/// An article row as a lookup returns it: joined with its feed's title.
pub open spec fn with_title(feeds: Seq<FeedRow>, a: Article) -> Article {
    Article { feed_title: feed_title_of(feeds, a.feed_id), ..a }
}

/// The feed as returned to callers, with the given unread count.
pub open spec fn feed_with_count(row: FeedRow, n: nat) -> Feed {
    Feed {
        id: row.id,
        title: row.title,
        url: row.url,
        site_url: row.site_url,
        last_fetched_at: row.last_fetched_at,
        created_at: row.created_at,
        unread_count: n as usize,
    }
}

/// The stored part of a feed returned by an insertion.
pub open spec fn feed_row_of(f: Feed) -> FeedRow {
    FeedRow {
        id: f.id,
        title: f.title,
        url: f.url,
        site_url: f.site_url,
        last_fetched_at: f.last_fetched_at,
        created_at: f.created_at,
    }
}

/// Every feed, joined with its unread count, in storage order.
pub open spec fn all_feeds_sel(feeds: Seq<FeedRow>, articles: Seq<Article>) -> Seq<Feed>
    decreases feeds.len(),
{
    if feeds.len() == 0 {
        Seq::empty()
    } else {
        all_feeds_sel(feeds.drop_last(), articles).push(
            feed_with_count(feeds.last(), count_unread(articles, feeds.last().id)),
        )
    }
}

pub proof fn lemma_all_feeds_sel_pointwise(feeds: Seq<FeedRow>, articles: Seq<Article>)
    ensures
        all_feeds_sel(feeds, articles).len() == feeds.len(),
        forall|k: int|
            0 <= k < feeds.len() ==> #[trigger] all_feeds_sel(feeds, articles)[k]
                == feed_with_count(feeds[k], count_unread(articles, feeds[k].id)),
    decreases feeds.len(),
{
    if feeds.len() == 0 {
    } else {
        lemma_all_feeds_sel_pointwise(feeds.drop_last(), articles);
    }
}

/// The feeds that survive deleting the feed with this id.
pub open spec fn feeds_without(feeds: Seq<FeedRow>, id: i64) -> Seq<FeedRow>
    decreases feeds.len(),
{
    if feeds.len() == 0 {
        Seq::empty()
    } else {
        let rest = feeds_without(feeds.drop_last(), id);
        if feeds.last().id == id {
            rest
        } else {
            rest.push(feeds.last())
        }
    }
}

/// The articles that survive deleting this feed.
pub open spec fn articles_without_feed(articles: Seq<Article>, feed_id: i64) -> Seq<Article>
    decreases articles.len(),
{
    if articles.len() == 0 {
        Seq::empty()
    } else {
        let rest = articles_without_feed(articles.drop_last(), feed_id);
        if articles.last().feed_id == feed_id {
            rest
        } else {
            rest.push(articles.last())
        }
    }
}

/// The associations whose article still exists.
pub open spec fn topics_for_articles(topics: Seq<TopicRow>, articles: Seq<Article>) -> Seq<TopicRow>
    decreases topics.len(),
{
    if topics.len() == 0 {
        Seq::empty()
    } else {
        let rest = topics_for_articles(topics.drop_last(), articles);
        if has_article_id(articles, topics.last().article_id) {
            rest.push(topics.last())
        } else {
            rest
        }
    }
}

proof fn lemma_feeds_without_props(feeds: Seq<FeedRow>, id: i64)
    requires
        feed_ids_unique(feeds),
        feed_urls_unique(feeds),
    ensures
        feed_ids_unique(feeds_without(feeds, id)),
        feed_urls_unique(feeds_without(feeds, id)),
        forall|k: int|
            0 <= k < feeds_without(feeds, id).len() ==> exists|j: int|
                0 <= j < feeds.len() && #[trigger] feeds_without(feeds, id)[k] == feeds[j]
                    && feeds[j].id != id,
    decreases feeds.len(),
{
    if feeds.len() == 0 {
    } else {
        let rest = feeds.drop_last();
        assert(forall|p: int| 0 <= p < rest.len() ==> #[trigger] rest[p] == feeds[p]);
        lemma_feeds_without_props(rest, id);
        let wr = feeds_without(rest, id);
        let w = feeds_without(feeds, id);
        if feeds.last().id == id {
        } else {
            assert(w == wr.push(feeds.last()));
            assert forall|p: int, q: int| 0 <= p < q < w.len() implies (#[trigger] w[p]).id
                != (#[trigger] w[q]).id && w[p].url@ != w[q].url@ by {
                if q < w.len() - 1 {
                    assert(w[p] == wr[p] && w[q] == wr[q]);
                } else {
                    assert(w[q] == feeds.last());
                    assert(w[p] == wr[p]);
                    let j = choose|j: int|
                        0 <= j < rest.len() && #[trigger] wr[p] == rest[j] && rest[j].id != id;
                    assert(feeds[j] == rest[j]);
                    assert(feeds[j].id != feeds[feeds.len() - 1].id);
                    assert(feeds[j].url@ != feeds[feeds.len() - 1].url@);
                }
            }
            assert forall|k: int| 0 <= k < w.len() implies exists|j: int|
                0 <= j < feeds.len() && #[trigger] w[k] == feeds[j] && feeds[j].id != id by {
                if k < w.len() - 1 {
                    let j = choose|j: int|
                        0 <= j < rest.len() && #[trigger] wr[k] == rest[j] && rest[j].id != id;
                    assert(w[k] == feeds[j] && feeds[j].id != id);
                } else {
                    assert(w[k] == feeds[feeds.len() - 1]);
                }
            }
        }
    }
}

proof fn lemma_articles_without_props(articles: Seq<Article>, fid: i64)
    requires
        article_ids_unique(articles),
        article_keys_unique(articles),
    ensures
        article_ids_unique(articles_without_feed(articles, fid)),
        article_keys_unique(articles_without_feed(articles, fid)),
        forall|k: int|
            0 <= k < articles_without_feed(articles, fid).len() ==> exists|j: int|
                0 <= j < articles.len() && #[trigger] articles_without_feed(articles, fid)[k]
                    == articles[j] && articles[j].feed_id != fid,
    decreases articles.len(),
{
    if articles.len() == 0 {
    } else {
        let rest = articles.drop_last();
        assert(forall|p: int| 0 <= p < rest.len() ==> #[trigger] rest[p] == articles[p]);
        lemma_articles_without_props(rest, fid);
        let wr = articles_without_feed(rest, fid);
        let w = articles_without_feed(articles, fid);
        if articles.last().feed_id == fid {
        } else {
            assert(w == wr.push(articles.last()));
            assert forall|p: int, q: int| 0 <= p < q < w.len() implies (#[trigger] w[p]).id
                != (#[trigger] w[q]).id && !(w[p].feed_id == w[q].feed_id && w[p].url@
                == w[q].url@) by {
                if q < w.len() - 1 {
                    assert(w[p] == wr[p] && w[q] == wr[q]);
                } else {
                    assert(w[q] == articles.last());
                    assert(w[p] == wr[p]);
                    let j = choose|j: int|
                        0 <= j < rest.len() && #[trigger] wr[p] == rest[j] && rest[j].feed_id
                            != fid;
                    assert(articles[j] == rest[j]);
                    assert(articles[j].id != articles[articles.len() - 1].id);
                    assert(!(articles[j].feed_id == articles[articles.len() - 1].feed_id
                        && articles[j].url@ == articles[articles.len() - 1].url@));
                }
            }
            assert forall|k: int| 0 <= k < w.len() implies exists|j: int|
                0 <= j < articles.len() && #[trigger] w[k] == articles[j] && articles[j].feed_id
                    != fid by {
                if k < w.len() - 1 {
                    let j = choose|j: int|
                        0 <= j < rest.len() && #[trigger] wr[k] == rest[j] && rest[j].feed_id
                            != fid;
                    assert(w[k] == articles[j] && articles[j].feed_id != fid);
                } else {
                    assert(w[k] == articles[articles.len() - 1]);
                }
            }
        }
    }
}

proof fn lemma_topics_for_props(topics: Seq<TopicRow>, articles: Seq<Article>)
    requires
        topic_keys_unique(topics),
    ensures
        topic_keys_unique(topics_for_articles(topics, articles)),
        forall|k: int|
            0 <= k < topics_for_articles(topics, articles).len() ==> exists|j: int|
                0 <= j < topics.len() && #[trigger] topics_for_articles(topics, articles)[k]
                    == topics[j],
        forall|k: int|
            0 <= k < topics_for_articles(topics, articles).len() ==> has_article_id(
                articles,
                (#[trigger] topics_for_articles(topics, articles)[k]).article_id,
            ),
    decreases topics.len(),
{
    if topics.len() == 0 {
    } else {
        let rest = topics.drop_last();
        assert(forall|p: int| 0 <= p < rest.len() ==> #[trigger] rest[p] == topics[p]);
        lemma_topics_for_props(rest, articles);
        let wr = topics_for_articles(rest, articles);
        let w = topics_for_articles(topics, articles);
        if has_article_id(articles, topics.last().article_id) {
            assert(w == wr.push(topics.last()));
            assert forall|p: int, q: int| 0 <= p < q < w.len() implies !((#[trigger] w[p]).article_id
                == (#[trigger] w[q]).article_id && w[p].topic@ == w[q].topic@) by {
                if q < w.len() - 1 {
                    assert(w[p] == wr[p] && w[q] == wr[q]);
                } else {
                    assert(w[q] == topics.last());
                    assert(w[p] == wr[p]);
                    let j = choose|j: int| 0 <= j < rest.len() && #[trigger] wr[p] == rest[j];
                    assert(topics[j] == rest[j]);
                    assert(!(topics[j].article_id == topics[topics.len() - 1].article_id
                        && topics[j].topic@ == topics[topics.len() - 1].topic@));
                }
            }
            assert forall|k: int| 0 <= k < w.len() implies exists|j: int|
                0 <= j < topics.len() && #[trigger] w[k] == topics[j] by {
                if k < w.len() - 1 {
                    let j = choose|j: int| 0 <= j < rest.len() && #[trigger] wr[k] == rest[j];
                    assert(w[k] == topics[j]);
                } else {
                    assert(w[k] == topics[topics.len() - 1]);
                }
            }
        } else {
            assert forall|k: int| 0 <= k < w.len() implies exists|j: int|
                0 <= j < topics.len() && #[trigger] w[k] == topics[j] by {
                let j = choose|j: int| 0 <= j < rest.len() && #[trigger] wr[k] == rest[j];
                assert(w[k] == topics[j]);
            }
        }
    }
}

proof fn lemma_feeds_without_has(feeds: Seq<FeedRow>, id: i64, fid: i64)
    requires
        has_feed_id(feeds, fid),
        fid != id,
    ensures
        has_feed_id(feeds_without(feeds, id), fid),
    decreases feeds.len(),
{
    let w = feeds_without(feeds, id);
    let rest = feeds.drop_last();
    let i = choose|i: int| 0 <= i < feeds.len() && (#[trigger] feeds[i]).id == fid;
    if i == feeds.len() - 1 {
        assert(feeds.last().id == fid);
        assert(w == feeds_without(rest, id).push(feeds.last()));
        assert(w[w.len() - 1].id == fid);
    } else {
        assert(rest[i] == feeds[i]);
        assert(has_feed_id(rest, fid));
        lemma_feeds_without_has(rest, id, fid);
        let wr = feeds_without(rest, id);
        let j = choose|j: int| 0 <= j < wr.len() && (#[trigger] wr[j]).id == fid;
        if feeds.last().id == id {
            assert(w == wr);
        } else {
            assert(w == wr.push(feeds.last()));
            assert(w[j].id == fid);
        }
    }
}

fn has_feed_id_exec(feeds: &Vec<FeedRow>, id: i64) -> (r: bool)
    ensures
        r == has_feed_id(feeds@, id),
{
    let mut i: usize = 0;
    while i < feeds.len()
        invariant
            i <= feeds@.len(),
            forall|q: int| 0 <= q < i ==> (#[trigger] feeds@[q]).id != id,
        decreases feeds@.len() - i,
    {
        if feeds[i].id == id {
            return true;
        }
        i += 1;
    }
    false
}

fn has_article_id_exec(articles: &Vec<Article>, id: i64) -> (r: bool)
    ensures
        r == has_article_id(articles@, id),
{
    let mut i: usize = 0;
    while i < articles.len()
        invariant
            i <= articles@.len(),
            forall|q: int| 0 <= q < i ==> (#[trigger] articles@[q]).id != id,
        decreases articles@.len() - i,
    {
        if articles[i].id == id {
            return true;
        }
        i += 1;
    }
    false
}

fn count_unread_exec(articles: &Vec<Article>, feed_id: i64) -> (r: usize)
    ensures
        r == count_unread(articles@, feed_id),
{
    let mut cnt: usize = 0;
    let mut i: usize = 0;
    while i < articles.len()
        invariant
            i <= articles@.len(),
            cnt == count_unread(articles@.take(i as int), feed_id),
            cnt <= i,
        decreases articles@.len() - i,
    {
        proof {
            assert(articles@.take(i as int + 1).drop_last() =~= articles@.take(i as int));
            assert(articles@.take(i as int + 1).last() == articles@[i as int]);
        }
        if articles[i].feed_id == feed_id && !articles[i].is_read {
            cnt += 1;
        }
        i += 1;
    }
    proof {
        assert(articles@.take(articles@.len() as int) =~= articles@);
    }
    cnt
}

// ---------------------------------------------------------------------------
// Reading-pattern and topic upserts.
// ---------------------------------------------------------------------------

/// One repeated observation strengthens a pattern's weight by a tenth.
pub open spec fn bump_weight(w: u64) -> u64 {
    if w == u64::MAX {
        w
    } else {
        (w + 1) as u64
    }
}

/// The patterns that survive deleting the pattern with this id.
pub open spec fn patterns_without(ps: Seq<ReadingPattern>, id: i64) -> Seq<ReadingPattern>
    decreases ps.len(),
{
    if ps.len() == 0 {
        Seq::empty()
    } else {
        let rest = patterns_without(ps.drop_last(), id);
        if ps.last().id == id {
            rest
        } else {
            rest.push(ps.last())
        }
    }
}

proof fn lemma_patterns_without_props(ps: Seq<ReadingPattern>, id: i64)
    requires
        pattern_ids_unique(ps),
        pattern_keys_unique(ps),
    ensures
        pattern_ids_unique(patterns_without(ps, id)),
        pattern_keys_unique(patterns_without(ps, id)),
        forall|k: int|
            0 <= k < patterns_without(ps, id).len() ==> exists|j: int|
                0 <= j < ps.len() && #[trigger] patterns_without(ps, id)[k] == ps[j] && ps[j].id
                    != id,
    decreases ps.len(),
{
    if ps.len() == 0 {
    } else {
        let rest = ps.drop_last();
        assert(forall|p: int| 0 <= p < rest.len() ==> #[trigger] rest[p] == ps[p]);
        lemma_patterns_without_props(rest, id);
        let wr = patterns_without(rest, id);
        let w = patterns_without(ps, id);
        if ps.last().id == id {
        } else {
            assert(w == wr.push(ps.last()));
            assert forall|p: int, q: int| 0 <= p < q < w.len() implies (#[trigger] w[p]).id
                != (#[trigger] w[q]).id && !(w[p].pattern_type@ == w[q].pattern_type@ && w[p].value@
                == w[q].value@) by {
                if q < w.len() - 1 {
                    assert(w[p] == wr[p] && w[q] == wr[q]);
                } else {
                    assert(w[q] == ps.last());
                    assert(w[p] == wr[p]);
                    let j = choose|j: int|
                        0 <= j < rest.len() && #[trigger] wr[p] == rest[j] && rest[j].id != id;
                    assert(ps[j] == rest[j]);
                    assert(ps[j].id != ps[ps.len() - 1].id);
                    assert(!(ps[j].pattern_type@ == ps[ps.len() - 1].pattern_type@ && ps[j].value@
                        == ps[ps.len() - 1].value@));
                }
            }
            assert forall|k: int| 0 <= k < w.len() implies exists|j: int|
                0 <= j < ps.len() && #[trigger] w[k] == ps[j] && ps[j].id != id by {
                if k < w.len() - 1 {
                    let j = choose|j: int|
                        0 <= j < rest.len() && #[trigger] wr[k] == rest[j] && rest[j].id != id;
                    assert(w[k] == ps[j] && ps[j].id != id);
                } else {
                    assert(w[k] == ps[ps.len() - 1]);
                }
            }
        }
    }
}

// ---------------------------------------------------------------------------
// Aggregation of topic scores over read articles.
// ---------------------------------------------------------------------------

/// The article exists and has been read.
pub open spec fn article_is_read(articles: Seq<Article>, id: i64) -> bool {
    exists|i: int|
        0 <= i < articles.len() && (#[trigger] articles[i]).id == id && articles[i].is_read
}

/// Sum of this topic's scores across read articles.
pub open spec fn read_topic_total(
    topics: Seq<TopicRow>,
    articles: Seq<Article>,
    topic: Seq<char>,
) -> int
    decreases topics.len(),
{
    if topics.len() == 0 {
        0
    } else {
        read_topic_total(topics.drop_last(), articles, topic) + if topics.last().topic@ == topic
            && article_is_read(articles, topics.last().article_id) {
            topics.last().score as int
        } else {
            0
        }
    }
}

/// The topic has at least one association with a read article.
pub open spec fn is_read_topic(topics: Seq<TopicRow>, articles: Seq<Article>, topic: Seq<char>) -> bool {
    exists|i: int|
        0 <= i < topics.len() && (#[trigger] topics[i]).topic@ == topic && article_is_read(
            articles,
            topics[i].article_id,
        )
}

/// What the top-read-topics query returns: each listed topic's exact
/// aggregate over read articles, topics distinct, heaviest first, capped at
/// `limit`, and every read topic either listed or dominated by the last
/// listed one.
pub open spec fn top_topics_post(
    topics: Seq<TopicRow>,
    articles: Seq<Article>,
    v: Seq<(String, u128)>,
    limit: int,
) -> bool {
    &&& v.len() <= limit
    &&& forall|k: int|
        0 <= k < v.len() ==> (#[trigger] v[k]).1 as int == read_topic_total(
            topics,
            articles,
            v[k].0@,
        )
    &&& forall|k: int|
        0 <= k < v.len() ==> is_read_topic(topics, articles, (#[trigger] v[k]).0@)
    &&& forall|i: int, j: int| 0 <= i < j < v.len() ==> (#[trigger] v[i]).0@ != (#[trigger] v[j]).0@
    &&& forall|i: int, j: int| 0 <= i < j < v.len() ==> (#[trigger] v[i]).1 >= (#[trigger] v[j]).1
    &&& forall|j: int|
        0 <= j < topics.len() && article_is_read(articles, (#[trigger] topics[j]).article_id)
            ==> (exists|k: int| 0 <= k < v.len() && (#[trigger] v[k]).0@ == topics[j].topic@) || (
        v.len() == limit && (v.len() > 0 ==> read_topic_total(topics, articles, topics[j].topic@)
            <= v.last().1 as int))
}

proof fn lemma_read_total_bounds(topics: Seq<TopicRow>, articles: Seq<Article>, topic: Seq<char>)
    ensures
        0 <= read_topic_total(topics, articles, topic) <= topics.len() * (u64::MAX as int),
    decreases topics.len(),
{
    if topics.len() == 0 {
    } else {
        lemma_read_total_bounds(topics.drop_last(), articles, topic);
        assert((topics.len() - 1) * (u64::MAX as int) + (u64::MAX as int) == topics.len() * (
        u64::MAX as int)) by (nonlinear_arith);
    }
}

proof fn lemma_read_total_zero(topics: Seq<TopicRow>, articles: Seq<Article>, topic: Seq<char>)
    requires
        forall|j: int|
            0 <= j < topics.len() ==> !((#[trigger] topics[j]).topic@ == topic && article_is_read(
                articles,
                topics[j].article_id,
            )),
    ensures
        read_topic_total(topics, articles, topic) == 0,
    decreases topics.len(),
{
    if topics.len() > 0 {
        let rest = topics.drop_last();
        assert(forall|j: int| 0 <= j < rest.len() ==> #[trigger] rest[j] == topics[j]);
        lemma_read_total_zero(rest, articles, topic);
    }
}

fn find_topic_pos(acc: &Vec<(String, u128)>, topic: &String) -> (r: Option<usize>)
    ensures
        (match r {
            Some(k) => k < acc@.len() && acc@[k as int].0@ == topic@,
            None => forall|k: int| 0 <= k < acc@.len() ==> (#[trigger] acc@[k]).0@ != topic@,
        }),
{
    let mut k: usize = 0;
    while k < acc.len()
        invariant
            k <= acc@.len(),
            forall|q: int| 0 <= q < k ==> (#[trigger] acc@[q]).0@ != topic@,
        decreases acc@.len() - k,
    {
        if crate::text::str_eq(acc[k].0.as_str(), topic.as_str()) {
            return Some(k);
        }
        k += 1;
    }
    None
}

fn article_is_read_exec(articles: &Vec<Article>, id: i64) -> (r: bool)
    ensures
        r == article_is_read(articles@, id),
{
    let mut i: usize = 0;
    while i < articles.len()
        invariant
            i <= articles@.len(),
            forall|q: int|
                0 <= q < i ==> !((#[trigger] articles@[q]).id == id && articles@[q].is_read),
        decreases articles@.len() - i,
    {
        if articles[i].id == id && articles[i].is_read {
            return true;
        }
        i += 1;
    }
    false
}

// ---------------------------------------------------------------------------
// Read-state transitions, named so the laws can speak about them.
// ---------------------------------------------------------------------------

/// Exactly the article with this id is marked read, with some read
/// timestamp; everything else is untouched.
pub open spec fn marked_read(before: Seq<Article>, after: Seq<Article>, id: i64) -> bool {
    &&& after.len() == before.len()
    &&& forall|j: int|
        0 <= j < before.len() && (#[trigger] before[j]).id != id ==> after[j] == before[j]
    &&& forall|j: int|
        0 <= j < before.len() && (#[trigger] before[j]).id == id ==> after[j] == (Article {
            is_read: true,
            read_at: after[j].read_at,
            ..before[j]
        }) && after[j].read_at is Some
}

/// Exactly the article with this id is marked unread, its read timestamp
/// cleared; everything else is untouched.
pub open spec fn marked_unread(before: Seq<Article>, after: Seq<Article>, id: i64) -> bool {
    &&& after.len() == before.len()
    &&& forall|j: int|
        0 <= j < before.len() && (#[trigger] before[j]).id != id ==> after[j] == before[j]
    &&& forall|j: int|
        0 <= j < before.len() && (#[trigger] before[j]).id == id ==> after[j] == (Article {
            is_read: false,
            read_at: None,
            ..before[j]
        })
}

/// The articles that satisfy `p`, each joined with its feed's title, in
/// storage order.
pub open spec fn articles_sel(
    articles: Seq<Article>,
    feeds: Seq<FeedRow>,
    p: spec_fn(Article) -> bool,
) -> Seq<Article>
    decreases articles.len(),
{
    if articles.len() == 0 {
        Seq::empty()
    } else {
        let rest = articles_sel(articles.drop_last(), feeds, p);
        if p(articles.last()) {
            rest.push(with_title(feeds, articles.last()))
        } else {
            rest
        }
    }
}

/// The filter shared by the article list queries.
pub open spec fn sel_pred(keep_feed: Option<i64>, unread_only: bool) -> spec_fn(Article) -> bool {
    |a: Article|
        (match keep_feed {
            Some(fid) => a.feed_id == fid,
            None => true,
        }) && (unread_only ==> !a.is_read)
}

pub proof fn lemma_articles_sel_ext(
    articles: Seq<Article>,
    feeds: Seq<FeedRow>,
    p1: spec_fn(Article) -> bool,
    p2: spec_fn(Article) -> bool,
)
    requires
        forall|a: Article| #[trigger] p1(a) == #[trigger] p2(a),
    ensures
        articles_sel(articles, feeds, p1) == articles_sel(articles, feeds, p2),
    decreases articles.len(),
{
    if articles.len() > 0 {
        lemma_articles_sel_ext(articles.drop_last(), feeds, p1, p2);
    }
}

/// The title of the feed owning article `id`, for lookups.
fn feed_title_exec(feeds: &Vec<FeedRow>, id: i64) -> (r: Option<String>)
    ensures
        r == feed_title_of(feeds@, id),
{
    let mut i: usize = 0;
    proof {
        assert(feeds@.skip(0) =~= feeds@);
    }
    while i < feeds.len()
        invariant
            i <= feeds@.len(),
            feed_title_of(feeds@, id) == feed_title_of(feeds@.skip(i as int), id),
        decreases feeds@.len() - i,
    {
        proof {
            assert(feeds@.skip(i as int).first() == feeds@[i as int]);
            assert(feeds@.skip(i as int).drop_first() =~= feeds@.skip(i as int + 1));
        }
        if feeds[i].id == id {
            return Some(feeds[i].title.clone());
        }
        i += 1;
    }
    proof {
        assert(feeds@.skip(feeds@.len() as int).len() == 0);
    }
    None
}

/// A lookup copy of a stored article, joined with its feed's title.
fn join_article(feeds: &Vec<FeedRow>, a: &Article) -> (r: Article)
    ensures
        r == with_title(feeds@, *a),
{
    let title = feed_title_exec(feeds, a.feed_id);
    Article {
        id: a.id,
        feed_id: a.feed_id,
        title: a.title.clone(),
        url: a.url.clone(),
        summary: clone_opt_string(&a.summary),
        published_at: a.published_at,
        fetched_at: a.fetched_at,
        is_read: a.is_read,
        read_at: a.read_at,
        feed_title: title,
    }
}

// ---------------------------------------------------------------------------
// The store.
// ---------------------------------------------------------------------------

/// The storage engine: feeds, articles, reading patterns and article-topic
/// associations, with the schema's key constraints as its invariant.  All
/// mutation goes through the operations below.
pub struct Database {
    pub feeds: Vec<FeedRow>,
    pub articles: Vec<Article>,
    pub patterns: Vec<ReadingPattern>,
    pub topics: Vec<TopicRow>,
    pub next_feed_id: i64,
    pub next_article_id: i64,
    pub next_pattern_id: i64,
}

impl Database {
    /// The schema's constraints: unique keys, foreign keys, identifiers
    /// below their counters, and lookup-only fields absent from storage.
    pub open spec fn wf(self) -> bool {
        &&& 1 <= self.next_feed_id
        &&& 1 <= self.next_article_id
        &&& 1 <= self.next_pattern_id
        &&& feed_ids_unique(self.feeds@)
        &&& feed_urls_unique(self.feeds@)
        &&& forall|i: int|
            0 <= i < self.feeds@.len() ==> 1 <= (#[trigger] self.feeds@[i]).id
                < self.next_feed_id
        &&& article_ids_unique(self.articles@)
        &&& article_keys_unique(self.articles@)
        &&& forall|i: int|
            0 <= i < self.articles@.len() ==> 1 <= (#[trigger] self.articles@[i]).id
                < self.next_article_id
        &&& forall|i: int|
            0 <= i < self.articles@.len() ==> has_feed_id(
                self.feeds@,
                (#[trigger] self.articles@[i]).feed_id,
            )
        &&& forall|i: int|
            0 <= i < self.articles@.len() ==> (!(#[trigger] self.articles@[i]).is_read
                ==> self.articles@[i].read_at is None)
        &&& forall|i: int|
            0 <= i < self.articles@.len() ==> (#[trigger] self.articles@[i]).feed_title is None
        &&& pattern_ids_unique(self.patterns@)
        &&& pattern_keys_unique(self.patterns@)
        &&& forall|i: int|
            0 <= i < self.patterns@.len() ==> 1 <= (#[trigger] self.patterns@[i]).id
                < self.next_pattern_id
        &&& topic_keys_unique(self.topics@)
        &&& forall|i: int|
            0 <= i < self.topics@.len() ==> has_article_id(
                self.articles@,
                (#[trigger] self.topics@[i]).article_id,
            )
    }

    /// An empty store.
    pub fn new() -> (db: Database)
        ensures
            db.wf(),
            db.feeds@.len() == 0,
            db.articles@.len() == 0,
            db.patterns@.len() == 0,
            db.topics@.len() == 0,
            db.next_feed_id == 1,
            db.next_article_id == 1,
            db.next_pattern_id == 1,
    {
        Database {
            feeds: Vec::new(),
            articles: Vec::new(),
            patterns: Vec::new(),
            topics: Vec::new(),
            next_feed_id: 1,
            next_article_id: 1,
            next_pattern_id: 1,
        }
    }

    /// The feed with this id, with its unread count computed from current
    /// article state, or nothing if absent.
    pub fn get_feed(&self, id: i64) -> (r: Option<Feed>)
        requires
            self.wf(),
        ensures
            (match r {
                Some(f) => exists|i: int|
                    0 <= i < self.feeds@.len() && (#[trigger] self.feeds@[i]).id == id && f
                        == feed_with_count(self.feeds@[i], count_unread(self.articles@, id)),
                None => !has_feed_id(self.feeds@, id),
            }),
    {
        let mut i: usize = 0;
        while i < self.feeds.len()
            invariant
                i <= self.feeds@.len(),
                forall|q: int| 0 <= q < i ==> (#[trigger] self.feeds@[q]).id != id,
            decreases self.feeds@.len() - i,
        {
            if self.feeds[i].id == id {
                let cnt = count_unread_exec(&self.articles, id);
                let row = &self.feeds[i];
                return Some(
                    Feed {
                        id: row.id,
                        title: row.title.clone(),
                        url: row.url.clone(),
                        site_url: clone_opt_string(&row.site_url),
                        last_fetched_at: row.last_fetched_at,
                        created_at: row.created_at,
                        unread_count: cnt,
                    },
                );
            }
            i += 1;
        }
        None
    }

    /// The feed with this url, with its unread count, or nothing if absent.
    pub fn get_feed_by_url(&self, url: &str) -> (r: Option<Feed>)
        requires
            self.wf(),
        ensures
            (match r {
                Some(f) => exists|i: int|
                    0 <= i < self.feeds@.len() && (#[trigger] self.feeds@[i]).url@ == url@ && f
                        == feed_with_count(
                        self.feeds@[i],
                        count_unread(self.articles@, self.feeds@[i].id),
                    ),
                None => !has_feed_url(self.feeds@, url@),
            }),
    {
        let mut i: usize = 0;
        while i < self.feeds.len()
            invariant
                i <= self.feeds@.len(),
                forall|q: int| 0 <= q < i ==> (#[trigger] self.feeds@[q]).url@ != url@,
            decreases self.feeds@.len() - i,
        {
            if crate::text::str_eq(self.feeds[i].url.as_str(), url) {
                let cnt = count_unread_exec(&self.articles, self.feeds[i].id);
                let row = &self.feeds[i];
                return Some(
                    Feed {
                        id: row.id,
                        title: row.title.clone(),
                        url: row.url.clone(),
                        site_url: clone_opt_string(&row.site_url),
                        last_fetched_at: row.last_fetched_at,
                        created_at: row.created_at,
                        unread_count: cnt,
                    },
                );
            }
            i += 1;
        }
        None
    }

    /// Creates a feed from parsed metadata.  Fails, changing nothing, when a
    /// feed with the same url is already subscribed (or when the store has
    /// run out of identifiers); otherwise appends it with unread count zero
    /// and returns it with its assigned identifier.
    pub fn insert_feed(&mut self, feed: &ParsedFeed) -> (r: Result<Feed, PatinaError>)
        requires
            old(self).wf(),
        ensures
            final(self).wf(),
            (match r {
                Ok(f) => {
                    &&& !has_feed_url(old(self).feeds@, feed.url@)
                    &&& f.id == old(self).next_feed_id
                    &&& f.title == feed.title
                    &&& f.url == feed.url
                    &&& f.site_url == feed.site_url
                    &&& f.last_fetched_at == Some(f.created_at)
                    &&& f.unread_count == 0
                    &&& final(self).feeds@ == old(self).feeds@.push(feed_row_of(f))
                    &&& final(self).articles@ == old(self).articles@
                    &&& final(self).patterns@ == old(self).patterns@
                    &&& final(self).topics@ == old(self).topics@
                    &&& final(self).next_feed_id == old(self).next_feed_id + 1
                    &&& final(self).next_article_id == old(self).next_article_id
                    &&& final(self).next_pattern_id == old(self).next_pattern_id
                },
                Err(e) => {
                    &&& *final(self) == *old(self)
                    &&& (e matches PatinaError::FeedAlreadyExists(t) ==> exists|i: int|
                        0 <= i < old(self).feeds@.len() && (#[trigger] old(self).feeds@[i]).url@
                            == feed.url@ && t@ == old(self).feeds@[i].title@)
                    &&& (has_feed_url(old(self).feeds@, feed.url@)
                        ==> e matches PatinaError::FeedAlreadyExists(_))
                },
            }),
            r is Err <==> (has_feed_url(old(self).feeds@, feed.url@) || old(self).next_feed_id
                == i64::MAX),
    {
        let mut i: usize = 0;
        while i < self.feeds.len()
            invariant
                self == old(self),
                old(self).wf(),
                i <= self.feeds@.len(),
                forall|q: int| 0 <= q < i ==> (#[trigger] self.feeds@[q]).url@ != feed.url@,
            decreases self.feeds@.len() - i,
        {
            if crate::text::str_eq(self.feeds[i].url.as_str(), feed.url.as_str()) {
                return Err(PatinaError::FeedAlreadyExists(self.feeds[i].title.clone()));
            }
            i += 1;
        }
        if self.next_feed_id == i64::MAX {
            return Err(PatinaError::DatabaseError("feed id space exhausted".to_owned()));
        }
        let now = now_ts();
        let id = self.next_feed_id;
        let f = Feed {
            id,
            title: feed.title.clone(),
            url: feed.url.clone(),
            site_url: clone_opt_string(&feed.site_url),
            last_fetched_at: Some(now),
            created_at: now,
            unread_count: 0,
        };
        let row = FeedRow {
            id,
            title: f.title.clone(),
            url: f.url.clone(),
            site_url: clone_opt_string(&f.site_url),
            last_fetched_at: f.last_fetched_at,
            created_at: f.created_at,
        };
        self.feeds.push(row);
        self.next_feed_id = id + 1;
        proof {
            let fs = self.feeds@;
            let ofs = old(self).feeds@;
            assert(fs.drop_last() =~= ofs);
            assert forall|k: int|
                0 <= k < self.articles@.len() implies has_feed_id(
                fs,
                (#[trigger] self.articles@[k]).feed_id,
            ) by {
                assert(has_feed_id(ofs, self.articles@[k].feed_id));
                let q = choose|q: int|
                    0 <= q < ofs.len() && (#[trigger] ofs[q]).id == self.articles@[k].feed_id;
                assert(fs[q].id == self.articles@[k].feed_id);
            }
        }
        Ok(f)
    }

    /// All feeds, each with its computed unread count, ordered by title
    /// case-insensitively.
    pub fn get_all_feeds(&self) -> (r: Result<Vec<Feed>, PatinaError>)
        requires
            self.wf(),
        ensures
            (match r {
                Ok(v) => {
                    &&& v@.to_multiset() == all_feeds_sel(self.feeds@, self.articles@).to_multiset()
                    &&& feeds_sorted(v@)
                    &&& v@.len() == self.feeds@.len()
                    &&& forall|k: int|
                        0 <= k < v@.len() ==> (#[trigger] v@[k]).unread_count == count_unread(
                            self.articles@,
                            v@[k].id,
                        )
                },
                Err(_) => false,
            }),
    {
        let mut acc: Vec<Feed> = Vec::new();
        let mut i: usize = 0;
        while i < self.feeds.len()
            invariant
                self.wf(),
                i <= self.feeds@.len(),
                acc@ == all_feeds_sel(self.feeds@.take(i as int), self.articles@),
                acc@.len() == i,
            decreases self.feeds@.len() - i,
        {
            let row = &self.feeds[i];
            let cnt = count_unread_exec(&self.articles, row.id);
            proof {
                assert(self.feeds@.take(i as int + 1).drop_last() =~= self.feeds@.take(i as int));
                assert(self.feeds@.take(i as int + 1).last() == self.feeds@[i as int]);
            }
            acc.push(
                Feed {
                    id: row.id,
                    title: row.title.clone(),
                    url: row.url.clone(),
                    site_url: clone_opt_string(&row.site_url),
                    last_fetched_at: row.last_fetched_at,
                    created_at: row.created_at,
                    unread_count: cnt,
                },
            );
            i += 1;
        }
        proof {
            assert(self.feeds@.take(self.feeds@.len() as int) =~= self.feeds@);
        }
        let ghost sel = all_feeds_sel(self.feeds@, self.articles@);
        sort_feeds_by_title(&mut acc);
        proof {
            lemma_all_feeds_sel_pointwise(self.feeds@, self.articles@);
            broadcast use vstd::std_specs::vec::axiom_spec_len;

            assert(vstd::std_specs::vec::spec_vec_len(&self.articles) == self.articles@.len());
            assert forall|k: int| 0 <= k < sel.len() implies (#[trigger] sel[k]).unread_count
                == count_unread(self.articles@, sel[k].id) by {
                lemma_count_unread_le(self.articles@, self.feeds@[k].id);
                assert(count_unread(self.articles@, self.feeds@[k].id) <= usize::MAX as nat);
            }
            crate::order::lemma_multiset_transfer(
                sel,
                acc@,
                |f: Feed| f.unread_count == count_unread(self.articles@, f.id),
            );
            broadcast use vstd::seq_lib::group_to_multiset_ensures;

            assert(acc@.len() == acc@.to_multiset().len());
            assert(sel.len() == sel.to_multiset().len());
        }
        Ok(acc)
    }

    /// Deletes the feed with this id and, transitively, all its articles
    /// and their topic associations.  A missing id is a no-op.
    pub fn delete_feed(&mut self, id: i64) -> (r: Result<(), PatinaError>)
        requires
            old(self).wf(),
        ensures
            final(self).wf(),
            r is Ok,
            final(self).feeds@ == feeds_without(old(self).feeds@, id),
            final(self).articles@ == articles_without_feed(old(self).articles@, id),
            final(self).topics@ == topics_for_articles(old(self).topics@, final(self).articles@),
            final(self).patterns@ == old(self).patterns@,
            final(self).next_feed_id == old(self).next_feed_id,
            final(self).next_article_id == old(self).next_article_id,
            final(self).next_pattern_id == old(self).next_pattern_id,
    {
        let ghost ofs = self.feeds@;
        let ghost oas = self.articles@;
        let ghost ots = self.topics@;
        let mut new_feeds: Vec<FeedRow> = Vec::new();
        let mut i: usize = 0;
        while i < self.feeds.len()
            invariant
                self == old(self),
                old(self).wf(),
                ofs == self.feeds@,
                i <= ofs.len(),
                new_feeds@ == feeds_without(ofs.take(i as int), id),
            decreases ofs.len() - i,
        {
            proof {
                assert(ofs.take(i as int + 1).drop_last() =~= ofs.take(i as int));
                assert(ofs.take(i as int + 1).last() == ofs[i as int]);
            }
            if self.feeds[i].id != id {
                new_feeds.push(self.feeds[i].clone());
                proof {
                    assert(new_feeds@.last() == ofs[i as int]);
                }
            }
            i += 1;
        }
        let mut new_articles: Vec<Article> = Vec::new();
        let mut i: usize = 0;
        while i < self.articles.len()
            invariant
                self == old(self),
                old(self).wf(),
                oas == self.articles@,
                i <= oas.len(),
                new_articles@ == articles_without_feed(oas.take(i as int), id),
            decreases oas.len() - i,
        {
            proof {
                assert(oas.take(i as int + 1).drop_last() =~= oas.take(i as int));
                assert(oas.take(i as int + 1).last() == oas[i as int]);
            }
            if self.articles[i].feed_id != id {
                new_articles.push(self.articles[i].clone());
                proof {
                    assert(new_articles@.last() == oas[i as int]);
                }
            }
            i += 1;
        }
        let mut new_topics: Vec<TopicRow> = Vec::new();
        let mut i: usize = 0;
        while i < self.topics.len()
            invariant
                self == old(self),
                old(self).wf(),
                ots == self.topics@,
                i <= ots.len(),
                new_topics@ == topics_for_articles(ots.take(i as int), new_articles@),
            decreases ots.len() - i,
        {
            proof {
                assert(ots.take(i as int + 1).drop_last() =~= ots.take(i as int));
                assert(ots.take(i as int + 1).last() == ots[i as int]);
            }
            if has_article_id_exec(&new_articles, self.topics[i].article_id) {
                new_topics.push(self.topics[i].clone());
                proof {
                    assert(new_topics@.last() == ots[i as int]);
                }
            }
            i += 1;
        }
        proof {
            assert(ofs.take(ofs.len() as int) =~= ofs);
            assert(oas.take(oas.len() as int) =~= oas);
            assert(ots.take(ots.len() as int) =~= ots);
        }
        self.feeds = new_feeds;
        self.articles = new_articles;
        self.topics = new_topics;
        proof {
            let fs = self.feeds@;
            let ars = self.articles@;
            let ts = self.topics@;
            lemma_feeds_without_props(ofs, id);
            lemma_articles_without_props(oas, id);
            lemma_topics_for_props(ots, ars);
            assert forall|k: int| 0 <= k < fs.len() implies 1 <= (#[trigger] fs[k]).id
                < self.next_feed_id by {
                let j = choose|j: int| 0 <= j < ofs.len() && #[trigger] fs[k] == ofs[j];
            }
            assert forall|k: int| 0 <= k < ars.len() implies {
                &&& 1 <= (#[trigger] ars[k]).id < self.next_article_id
                &&& has_feed_id(fs, ars[k].feed_id)
                &&& (!ars[k].is_read ==> ars[k].read_at is None)
                &&& ars[k].feed_title is None
            } by {
                let j = choose|j: int|
                    0 <= j < oas.len() && #[trigger] ars[k] == oas[j] && oas[j].feed_id != id;
                lemma_feeds_without_has(ofs, id, oas[j].feed_id);
            }
        }
        Ok(())
    }

    /// Inserts an article under this feed if its (feed, url) key is unseen;
    /// an already-seen key is a no-op that returns the stored article, so a
    /// re-fetch cannot duplicate articles.  Fails, changing nothing, when
    /// the feed does not exist (or the store has run out of identifiers).
    pub fn insert_article(&mut self, feed_id: i64, article: &ParsedArticle) -> (r: Result<
        Article,
        PatinaError,
    >)
        requires
            old(self).wf(),
        ensures
            final(self).wf(),
            (match r {
                Ok(a) => {
                    &&& has_feed_id(old(self).feeds@, feed_id)
                    &&& if has_article_key(old(self).articles@, feed_id, article.url@) {
                        &&& *final(self) == *old(self)
                        &&& exists|i: int|
                            0 <= i < old(self).articles@.len()
                                && (#[trigger] old(self).articles@[i]).feed_id == feed_id
                                && old(self).articles@[i].url@ == article.url@ && a
                                == old(self).articles@[i]
                    } else {
                        &&& a.id == old(self).next_article_id
                        &&& a.feed_id == feed_id
                        &&& a.title == article.title
                        &&& a.url == article.url
                        &&& a.summary == article.summary
                        &&& a.published_at == article.published_at
                        &&& a.is_read == false
                        &&& a.read_at is None
                        &&& a.feed_title is None
                        &&& final(self).articles@ == old(self).articles@.push(a)
                        &&& final(self).next_article_id == old(self).next_article_id + 1
                        &&& final(self).feeds@ == old(self).feeds@
                        &&& final(self).patterns@ == old(self).patterns@
                        &&& final(self).topics@ == old(self).topics@
                        &&& final(self).next_feed_id == old(self).next_feed_id
                        &&& final(self).next_pattern_id == old(self).next_pattern_id
                    }
                },
                Err(_) => {
                    &&& *final(self) == *old(self)
                    &&& (!has_feed_id(old(self).feeds@, feed_id) || old(self).next_article_id
                        == i64::MAX)
                },
            }),
            has_feed_id(old(self).feeds@, feed_id) && (has_article_key(
                old(self).articles@,
                feed_id,
                article.url@,
            ) || old(self).next_article_id != i64::MAX) ==> r is Ok,
    {
        if !has_feed_id_exec(&self.feeds, feed_id) {
            return Err(PatinaError::DatabaseError("no such feed".to_owned()));
        }
        let mut i: usize = 0;
        while i < self.articles.len()
            invariant
                self == old(self),
                old(self).wf(),
                i <= self.articles@.len(),
                forall|q: int|
                    0 <= q < i ==> !((#[trigger] self.articles@[q]).feed_id == feed_id
                        && self.articles@[q].url@ == article.url@),
            decreases self.articles@.len() - i,
        {
            if self.articles[i].feed_id == feed_id && crate::text::str_eq(
                self.articles[i].url.as_str(),
                article.url.as_str(),
            ) {
                return Ok(self.articles[i].clone());
            }
            i += 1;
        }
        if self.next_article_id == i64::MAX {
            return Err(PatinaError::DatabaseError("article id space exhausted".to_owned()));
        }
        let now = now_ts();
        let id = self.next_article_id;
        let a = Article {
            id,
            feed_id,
            title: article.title.clone(),
            url: article.url.clone(),
            summary: clone_opt_string(&article.summary),
            published_at: article.published_at,
            fetched_at: now,
            is_read: false,
            read_at: None,
            feed_title: None,
        };
        self.articles.push(a.clone());
        self.next_article_id = id + 1;
        proof {
            let ars = self.articles@;
            let oas = old(self).articles@;
            assert(ars.drop_last() =~= oas);
            assert forall|k: int|
                0 <= k < self.topics@.len() implies has_article_id(
                ars,
                (#[trigger] self.topics@[k]).article_id,
            ) by {
                let q = choose|q: int|
                    0 <= q < oas.len() && (#[trigger] oas[q]).id == self.topics@[k].article_id;
                assert(ars[q].id == self.topics@[k].article_id);
            }
        }
        Ok(a)
    }

    /// The article with this id, joined with its feed's title, or nothing
    /// if absent.
    pub fn get_article(&self, id: i64) -> (r: Option<Article>)
        requires
            self.wf(),
        ensures
            (match r {
                Some(a) => exists|i: int|
                    0 <= i < self.articles@.len() && (#[trigger] self.articles@[i]).id == id && a
                        == with_title(self.feeds@, self.articles@[i]),
                None => !has_article_id(self.articles@, id),
            }),
    {
        let mut i: usize = 0;
        while i < self.articles.len()
            invariant
                i <= self.articles@.len(),
                forall|q: int| 0 <= q < i ==> (#[trigger] self.articles@[q]).id != id,
            decreases self.articles@.len() - i,
        {
            if self.articles[i].id == id {
                return Some(join_article(&self.feeds, &self.articles[i]));
            }
            i += 1;
        }
        None
    }

    /// Marks the article read, stamping the read time; a missing id is a
    /// no-op.
    pub fn mark_article_read(&mut self, id: i64) -> (r: Result<(), PatinaError>)
        requires
            old(self).wf(),
        ensures
            final(self).wf(),
            r is Ok,
            marked_read(old(self).articles@, final(self).articles@, id),
            final(self).feeds@ == old(self).feeds@,
            final(self).patterns@ == old(self).patterns@,
            final(self).topics@ == old(self).topics@,
            final(self).next_feed_id == old(self).next_feed_id,
            final(self).next_article_id == old(self).next_article_id,
            final(self).next_pattern_id == old(self).next_pattern_id,
    {
        let ghost oas = self.articles@;
        let mut i: usize = 0;
        while i < self.articles.len()
            invariant
                i <= self.articles@.len(),
                self.articles@.len() == oas.len(),
                forall|q: int| i <= q < oas.len() ==> self.articles@[q] == oas[q],
                forall|q: int|
                    0 <= q < i && (#[trigger] oas[q]).id != id ==> self.articles@[q] == oas[q],
                forall|q: int|
                    0 <= q < i && (#[trigger] oas[q]).id == id ==> self.articles@[q] == (Article {
                        is_read: true,
                        read_at: self.articles@[q].read_at,
                        ..oas[q]
                    }) && self.articles@[q].read_at is Some,
                self.feeds@ == old(self).feeds@,
                self.patterns@ == old(self).patterns@,
                self.topics@ == old(self).topics@,
                self.next_feed_id == old(self).next_feed_id,
                self.next_article_id == old(self).next_article_id,
                self.next_pattern_id == old(self).next_pattern_id,
                oas == old(self).articles@,
                old(self).wf(),
            decreases self.articles@.len() - i,
        {
            if self.articles[i].id == id {
                let now = now_ts();
                let a = &self.articles[i];
                let updated = Article {
                    id: a.id,
                    feed_id: a.feed_id,
                    title: a.title.clone(),
                    url: a.url.clone(),
                    summary: clone_opt_string(&a.summary),
                    published_at: a.published_at,
                    fetched_at: a.fetched_at,
                    is_read: true,
                    read_at: Some(now),
                    feed_title: clone_opt_string(&a.feed_title),
                };
                self.articles.set(i, updated);
            }
            i += 1;
        }
        proof {
            self.lemma_wf_after_flag_change(*old(self));
        }
        Ok(())
    }

    /// Marks the article unread, clearing the read time; a missing id is a
    /// no-op.
    pub fn mark_article_unread(&mut self, id: i64) -> (r: Result<(), PatinaError>)
        requires
            old(self).wf(),
        ensures
            final(self).wf(),
            r is Ok,
            marked_unread(old(self).articles@, final(self).articles@, id),
            final(self).feeds@ == old(self).feeds@,
            final(self).patterns@ == old(self).patterns@,
            final(self).topics@ == old(self).topics@,
            final(self).next_feed_id == old(self).next_feed_id,
            final(self).next_article_id == old(self).next_article_id,
            final(self).next_pattern_id == old(self).next_pattern_id,
    {
        let ghost oas = self.articles@;
        let mut i: usize = 0;
        while i < self.articles.len()
            invariant
                i <= self.articles@.len(),
                self.articles@.len() == oas.len(),
                forall|q: int| i <= q < oas.len() ==> self.articles@[q] == oas[q],
                forall|q: int|
                    0 <= q < i && (#[trigger] oas[q]).id != id ==> self.articles@[q] == oas[q],
                forall|q: int|
                    0 <= q < i && (#[trigger] oas[q]).id == id ==> self.articles@[q] == (Article {
                        is_read: false,
                        read_at: None,
                        ..oas[q]
                    }),
                self.feeds@ == old(self).feeds@,
                self.patterns@ == old(self).patterns@,
                self.topics@ == old(self).topics@,
                self.next_feed_id == old(self).next_feed_id,
                self.next_article_id == old(self).next_article_id,
                self.next_pattern_id == old(self).next_pattern_id,
                oas == old(self).articles@,
                old(self).wf(),
            decreases self.articles@.len() - i,
        {
            if self.articles[i].id == id {
                let a = &self.articles[i];
                let updated = Article {
                    id: a.id,
                    feed_id: a.feed_id,
                    title: a.title.clone(),
                    url: a.url.clone(),
                    summary: clone_opt_string(&a.summary),
                    published_at: a.published_at,
                    fetched_at: a.fetched_at,
                    is_read: false,
                    read_at: None,
                    feed_title: clone_opt_string(&a.feed_title),
                };
                self.articles.set(i, updated);
            }
            i += 1;
        }
        proof {
            self.lemma_wf_after_flag_change(*old(self));
        }
        Ok(())
    }

    /// The ranked selection shared by the article list queries: keep the
    /// matching articles, join titles in, and order them by the chosen time
    /// key, latest first.
    fn ranked_by_time(&self, keep_feed: Option<i64>, unread_only: bool, pub_first: bool) -> (v:
        Vec<Article>)
        requires
            self.wf(),
        ensures
            v@.to_multiset() == articles_sel(
                self.articles@,
                self.feeds@,
                sel_pred(keep_feed, unread_only),
            ).to_multiset(),
            forall|i: int, j: int|
                0 <= i < j < v@.len() ==> time_key(v@[i], pub_first) >= time_key(
                    v@[j],
                    pub_first,
                ),
    {
        let ghost p = sel_pred(keep_feed, unread_only);
        let mut pairs: Vec<(u128, Article)> = Vec::new();
        let mut i: usize = 0;
        while i < self.articles.len()
            invariant
                self.wf(),
                i <= self.articles@.len(),
                strip_seq(pairs@) == articles_sel(self.articles@.take(i as int), self.feeds@, p),
                forall|k: int|
                    0 <= k < pairs@.len() ==> (#[trigger] pairs@[k]).0 as int == time_key(
                        pairs@[k].1,
                        pub_first,
                    ),
                p == sel_pred(keep_feed, unread_only),
            decreases self.articles@.len() - i,
        {
            proof {
                assert(self.articles@.take(i as int + 1).drop_last() =~= self.articles@.take(
                    i as int,
                ));
                assert(self.articles@.take(i as int + 1).last() == self.articles@[i as int]);
            }
            let a = &self.articles[i];
            let keep = (match keep_feed {
                Some(fid) => a.feed_id == fid,
                None => true,
            }) && (!unread_only || !a.is_read);
            if keep {
                let ghost prev = pairs@;
                let att = join_article(&self.feeds, a);
                let key = time_key_exec(&att, pub_first);
                pairs.push((key, att));
                proof {
                    assert(strip_seq(pairs@) =~= strip_seq(prev).push(att));
                }
            }
            i += 1;
        }
        proof {
            assert(self.articles@.take(self.articles@.len() as int) =~= self.articles@);
        }
        let ghost orig_pairs = pairs@;
        sort_pairs_desc(&mut pairs);
        proof {
            lemma_strip_multiset(orig_pairs, pairs@);
            lemma_multiset_transfer(
                orig_pairs,
                pairs@,
                |pr: (u128, Article)| pr.0 as int == time_key(pr.1, pub_first),
            );
        }
        let v = strip_pairs(pairs);
        proof {
            assert forall|i2: int, j2: int|
                0 <= i2 < j2 < v@.len() implies time_key(v@[i2], pub_first) >= time_key(
                v@[j2],
                pub_first,
            ) by {
                assert(v@[i2] == strip_seq(pairs@)[i2]);
                assert(v@[j2] == strip_seq(pairs@)[j2]);
            }
        }
        v
    }

    /// The feed's articles, each joined with the feed's title, ordered by
    /// publication time falling back to fetch time, latest first.
    pub fn get_articles_for_feed(&self, feed_id: i64) -> (r: Result<Vec<Article>, PatinaError>)
        requires
            self.wf(),
        ensures
            (match r {
                Ok(v) => {
                    &&& v@.to_multiset() == articles_sel(
                        self.articles@,
                        self.feeds@,
                        |a: Article| a.feed_id == feed_id,
                    ).to_multiset()
                    &&& forall|i: int, j: int|
                        0 <= i < j < v@.len() ==> crate::order::coalesce_key(v@[i])
                            >= crate::order::coalesce_key(v@[j])
                },
                Err(_) => false,
            }),
    {
        let v = self.ranked_by_time(Some(feed_id), false, false);
        proof {
            lemma_articles_sel_ext(
                self.articles@,
                self.feeds@,
                sel_pred(Some(feed_id), false),
                |a: Article| a.feed_id == feed_id,
            );
        }
        Ok(v)
    }

    /// Every unread article, joined with its feed's title; articles with a
    /// publication time come first, latest first, and articles without one
    /// follow.
    pub fn get_all_unread_articles(&self) -> (r: Result<Vec<Article>, PatinaError>)
        requires
            self.wf(),
        ensures
            (match r {
                Ok(v) => {
                    &&& v@.to_multiset() == articles_sel(
                        self.articles@,
                        self.feeds@,
                        |a: Article| !a.is_read,
                    ).to_multiset()
                    &&& forall|i: int, j: int|
                        0 <= i < j < v@.len() ==> pub_first_key(v@[i]) >= pub_first_key(v@[j])
                },
                Err(_) => false,
            }),
    {
        let v = self.ranked_by_time(None, true, true);
        proof {
            lemma_articles_sel_ext(
                self.articles@,
                self.feeds@,
                sel_pred(None, true),
                |a: Article| !a.is_read,
            );
        }
        Ok(v)
    }

    /// The most recent articles across all read states, in the same order
    /// as the unread listing, capped at `limit`.
    pub fn get_recent_articles(&self, limit: i32) -> (r: Result<Vec<Article>, PatinaError>)
        requires
            self.wf(),
            0 <= limit,
        ensures
            (match r {
                Ok(v) => {
                    let sel = articles_sel(self.articles@, self.feeds@, |a: Article| true);
                    &&& v@.len() == vstd::math::min(limit as int, sel.len() as int)
                    &&& forall|i: int, j: int|
                        0 <= i < j < v@.len() ==> pub_first_key(v@[i]) >= pub_first_key(v@[j])
                    &&& forall|x: Article|
                        #[trigger] v@.to_multiset().count(x) <= sel.to_multiset().count(x)
                    &&& forall|x: Article|
                        v@.len() > 0 && sel.to_multiset().count(x) > #[trigger] v@.to_multiset().count(
                            x,
                        ) ==> pub_first_key(x) <= pub_first_key(v@.last())
                },
                Err(_) => false,
            }),
    {
        let ghost p = sel_pred(None, false);
        let mut v = self.ranked_by_time(None, false, true);
        proof {
            lemma_articles_sel_ext(self.articles@, self.feeds@, p, |a: Article| true);
            broadcast use vstd::seq_lib::group_to_multiset_ensures;

            assert(v@.len() == v@.to_multiset().len());
            assert(articles_sel(self.articles@, self.feeds@, |a: Article| true).len()
                == articles_sel(self.articles@, self.feeds@, |a: Article| true).to_multiset().len());
        }
        let ghost full = v@;
        let m: usize = if (limit as usize) < v.len() {
            limit as usize
        } else {
            v.len()
        };
        v.truncate(m);
        proof {
            assert(v@ =~= full.take(m as int));
            lemma_take_multiset_subset(full, m as int);
            if m > 0 {
                let le = |x: Article, y: Article| pub_first_key(x) >= pub_first_key(y);
                assert(vstd::relations::sorted_by(full, le));
                lemma_sorted_cut(full, m as int, le);
                assert(v@.last() == full[m as int - 1]);
            }
        }
        Ok(v)
    }

    /// Inserts a reading pattern with the default weight, or, when the
    /// (kind, value) pair is already present, strengthens that pattern's
    /// weight by a tenth instead of duplicating it.  Returns the resulting
    /// stored pattern.
    pub fn add_reading_pattern(&mut self, pattern_type: &str, value: &str, source: &str) -> (r:
        Result<ReadingPattern, PatinaError>)
        requires
            old(self).wf(),
        ensures
            final(self).wf(),
            final(self).feeds@ == old(self).feeds@,
            final(self).articles@ == old(self).articles@,
            final(self).topics@ == old(self).topics@,
            final(self).next_feed_id == old(self).next_feed_id,
            final(self).next_article_id == old(self).next_article_id,
            (match r {
                Ok(a) => {
                    &&& if has_pattern_key(old(self).patterns@, pattern_type@, value@) {
                        &&& final(self).patterns@.len() == old(self).patterns@.len()
                        &&& final(self).next_pattern_id == old(self).next_pattern_id
                        &&& forall|j: int|
                            0 <= j < old(self).patterns@.len() && !((#[trigger] old(
                                self,
                            ).patterns@[j]).pattern_type@ == pattern_type@ && old(
                                self,
                            ).patterns@[j].value@ == value@) ==> final(self).patterns@[j] == old(
                                self,
                            ).patterns@[j]
                        &&& forall|j: int|
                            0 <= j < old(self).patterns@.len() && ((#[trigger] old(
                                self,
                            ).patterns@[j]).pattern_type@ == pattern_type@ && old(
                                self,
                            ).patterns@[j].value@ == value@) ==> final(self).patterns@[j]
                                == (ReadingPattern {
                                weight_tenths: bump_weight(old(self).patterns@[j].weight_tenths),
                                ..old(self).patterns@[j]
                            })
                        &&& exists|j: int|
                            0 <= j < old(self).patterns@.len() && ((#[trigger] old(
                                self,
                            ).patterns@[j]).pattern_type@ == pattern_type@ && old(
                                self,
                            ).patterns@[j].value@ == value@) && a == final(self).patterns@[j]
                    } else {
                        &&& a.id == old(self).next_pattern_id
                        &&& a.pattern_type@ == pattern_type@
                        &&& a.value@ == value@
                        &&& a.source@ == source@
                        &&& a.weight_tenths == 10
                        &&& final(self).patterns@ == old(self).patterns@.push(a)
                        &&& final(self).next_pattern_id == old(self).next_pattern_id + 1
                    }
                },
                Err(e) => {
                    &&& *final(self) == *old(self)
                    &&& !has_pattern_key(old(self).patterns@, pattern_type@, value@)
                    &&& old(self).next_pattern_id == i64::MAX
                    &&& e is DatabaseError
                },
            }),
    {
        let ghost ops = self.patterns@;
        let mut i: usize = 0;
        while i < self.patterns.len()
            invariant
                self == old(self),
                old(self).wf(),
                ops == self.patterns@,
                i <= ops.len(),
                forall|q: int|
                    0 <= q < i ==> !((#[trigger] ops[q]).pattern_type@ == pattern_type@
                        && ops[q].value@ == value@),
            decreases ops.len() - i,
        {
            if crate::text::str_eq(self.patterns[i].pattern_type.as_str(), pattern_type)
                && crate::text::str_eq(self.patterns[i].value.as_str(), value) {
                let p = &self.patterns[i];
                let w = p.weight_tenths;
                let bumped = if w == u64::MAX {
                    w
                } else {
                    w + 1
                };
                let updated = ReadingPattern {
                    id: p.id,
                    pattern_type: p.pattern_type.clone(),
                    value: p.value.clone(),
                    source: p.source.clone(),
                    weight_tenths: bumped,
                    created_at: p.created_at,
                };
                let result = updated.clone();
                self.patterns.set(i, updated);
                proof {
                    let ps = self.patterns@;
                    assert(pattern_ids_unique(ps) && pattern_keys_unique(ps)) by {
                        assert(forall|p2: int, q2: int|
                            0 <= p2 < q2 < ps.len() ==> (#[trigger] ps[p2]).id == ops[p2].id
                                && (#[trigger] ps[q2]).id == ops[q2].id && ps[p2].pattern_type@
                                == ops[p2].pattern_type@ && ps[q2].pattern_type@
                                == ops[q2].pattern_type@ && ps[p2].value@ == ops[p2].value@
                                && ps[q2].value@ == ops[q2].value@);
                    }
                    assert(forall|k: int|
                        0 <= k < ps.len() ==> 1 <= (#[trigger] ps[k]).id < self.next_pattern_id)
                        by {
                        assert(forall|k: int|
                            0 <= k < ps.len() ==> (#[trigger] ps[k]).id == ops[k].id);
                    }
                    assert forall|j: int|
                        0 <= j < ops.len() && ((#[trigger] ops[j]).pattern_type@ == pattern_type@
                            && ops[j].value@ == value@) implies self.patterns@[j]
                        == (ReadingPattern {
                        weight_tenths: bump_weight(ops[j].weight_tenths),
                        ..ops[j]
                    }) by {
                        assert(j == i as int);
                    }
                }
                return Ok(result);
            }
            i += 1;
        }
        if self.next_pattern_id == i64::MAX {
            return Err(PatinaError::DatabaseError("pattern id space exhausted".to_owned()));
        }
        let now = now_ts();
        let id = self.next_pattern_id;
        let a = ReadingPattern {
            id,
            pattern_type: pattern_type.to_owned(),
            value: value.to_owned(),
            source: source.to_owned(),
            weight_tenths: 10,
            created_at: now,
        };
        self.patterns.push(a.clone());
        self.next_pattern_id = id + 1;
        proof {
            assert(self.patterns@.drop_last() =~= old(self).patterns@);
        }
        Ok(a)
    }

    /// Deletes the reading pattern with this id; a missing id is a no-op.
    pub fn delete_reading_pattern(&mut self, id: i64) -> (r: Result<(), PatinaError>)
        requires
            old(self).wf(),
        ensures
            final(self).wf(),
            r is Ok,
            final(self).patterns@ == patterns_without(old(self).patterns@, id),
            final(self).feeds@ == old(self).feeds@,
            final(self).articles@ == old(self).articles@,
            final(self).topics@ == old(self).topics@,
            final(self).next_feed_id == old(self).next_feed_id,
            final(self).next_article_id == old(self).next_article_id,
            final(self).next_pattern_id == old(self).next_pattern_id,
    {
        let ghost ops = self.patterns@;
        let mut kept: Vec<ReadingPattern> = Vec::new();
        let mut i: usize = 0;
        while i < self.patterns.len()
            invariant
                self == old(self),
                old(self).wf(),
                ops == self.patterns@,
                i <= ops.len(),
                kept@ == patterns_without(ops.take(i as int), id),
            decreases ops.len() - i,
        {
            proof {
                assert(ops.take(i as int + 1).drop_last() =~= ops.take(i as int));
                assert(ops.take(i as int + 1).last() == ops[i as int]);
            }
            if self.patterns[i].id != id {
                kept.push(self.patterns[i].clone());
            }
            i += 1;
        }
        proof {
            assert(ops.take(ops.len() as int) =~= ops);
        }
        self.patterns = kept;
        proof {
            lemma_patterns_without_props(ops, id);
            assert forall|k: int| 0 <= k < self.patterns@.len() implies 1 <= (#[trigger] self.patterns@[k]).id < self.next_pattern_id by {
                let j = choose|j: int| 0 <= j < ops.len() && #[trigger] self.patterns@[k] == ops[j];
            }
        }
        Ok(())
    }

    /// Clears all reading patterns; everything else is untouched.
    pub fn reset_reading_patterns(&mut self) -> (r: Result<(), PatinaError>)
        requires
            old(self).wf(),
        ensures
            final(self).wf(),
            r is Ok,
            final(self).patterns@.len() == 0,
            final(self).feeds@ == old(self).feeds@,
            final(self).articles@ == old(self).articles@,
            final(self).topics@ == old(self).topics@,
            final(self).next_feed_id == old(self).next_feed_id,
            final(self).next_article_id == old(self).next_article_id,
            final(self).next_pattern_id == old(self).next_pattern_id,
    {
        self.patterns.clear();
        Ok(())
    }

    /// Upserts the relevance score of (article, topic): a new association
    /// is appended, an existing one has its score replaced.  Fails,
    /// changing nothing, when the article does not exist.
    pub fn record_article_topic(&mut self, article_id: i64, topic: &str, score: u64) -> (r: Result<
        (),
        PatinaError,
    >)
        requires
            old(self).wf(),
        ensures
            final(self).wf(),
            final(self).feeds@ == old(self).feeds@,
            final(self).articles@ == old(self).articles@,
            final(self).patterns@ == old(self).patterns@,
            final(self).next_feed_id == old(self).next_feed_id,
            final(self).next_article_id == old(self).next_article_id,
            final(self).next_pattern_id == old(self).next_pattern_id,
            r is Err <==> !has_article_id(old(self).articles@, article_id),
            (match r {
                Ok(_) => {
                    if has_topic_key(old(self).topics@, article_id, topic@) {
                        &&& final(self).topics@.len() == old(self).topics@.len()
                        &&& forall|j: int|
                            0 <= j < old(self).topics@.len() && !((#[trigger] old(
                                self,
                            ).topics@[j]).article_id == article_id && old(self).topics@[j].topic@
                                == topic@) ==> final(self).topics@[j] == old(self).topics@[j]
                        &&& forall|j: int|
                            0 <= j < old(self).topics@.len() && ((#[trigger] old(
                                self,
                            ).topics@[j]).article_id == article_id && old(self).topics@[j].topic@
                                == topic@) ==> final(self).topics@[j].article_id == article_id
                                && final(self).topics@[j].topic@ == topic@
                                && final(self).topics@[j].score == score
                    } else {
                        &&& final(self).topics@.len() == old(self).topics@.len() + 1
                        &&& forall|j: int|
                            0 <= j < old(self).topics@.len() ==> final(self).topics@[j] == old(
                                self,
                            ).topics@[j]
                        &&& final(self).topics@.last().article_id == article_id
                        &&& final(self).topics@.last().topic@ == topic@
                        &&& final(self).topics@.last().score == score
                    }
                },
                Err(_) => *final(self) == *old(self),
            }),
    {
        if !has_article_id_exec(&self.articles, article_id) {
            return Err(PatinaError::DatabaseError("no such article".to_owned()));
        }
        let ghost ots = self.topics@;
        let mut i: usize = 0;
        while i < self.topics.len()
            invariant
                self == old(self),
                old(self).wf(),
                ots == self.topics@,
                i <= ots.len(),
                forall|q: int|
                    0 <= q < i ==> !((#[trigger] ots[q]).article_id == article_id && ots[q].topic@
                        == topic@),
            decreases ots.len() - i,
        {
            if self.topics[i].article_id == article_id && crate::text::str_eq(
                self.topics[i].topic.as_str(),
                topic,
            ) {
                let updated = TopicRow {
                    article_id,
                    topic: self.topics[i].topic.clone(),
                    score,
                };
                self.topics.set(i, updated);
                proof {
                    let ts = self.topics@;
                    assert(topic_keys_unique(ts)) by {
                        assert(forall|p2: int, q2: int|
                            0 <= p2 < q2 < ts.len() ==> (#[trigger] ts[p2]).article_id
                                == ots[p2].article_id && (#[trigger] ts[q2]).article_id
                                == ots[q2].article_id && ts[p2].topic@ == ots[p2].topic@
                                && ts[q2].topic@ == ots[q2].topic@);
                    }
                    assert forall|k: int|
                        0 <= k < ts.len() implies has_article_id(
                        self.articles@,
                        (#[trigger] ts[k]).article_id,
                    ) by {
                        assert(ts[k].article_id == ots[k].article_id);
                    }
                }
                return Ok(());
            }
            i += 1;
        }
        self.topics.push(TopicRow { article_id, topic: topic.to_owned(), score });
        proof {
            assert(self.topics@.drop_last() =~= ots);
        }
        Ok(())
    }

    /// All reading patterns, ordered by weight descending.
    pub fn get_reading_patterns(&self) -> (r: Result<Vec<ReadingPattern>, PatinaError>)
        requires
            self.wf(),
        ensures
            (match r {
                Ok(v) => {
                    &&& v@.to_multiset() == self.patterns@.to_multiset()
                    &&& forall|i: int, j: int|
                        0 <= i < j < v@.len() ==> (#[trigger] v@[i]).weight_tenths
                            >= (#[trigger] v@[j]).weight_tenths
                },
                Err(_) => false,
            }),
    {
        let mut pairs: Vec<(u128, ReadingPattern)> = Vec::new();
        let mut i: usize = 0;
        while i < self.patterns.len()
            invariant
                i <= self.patterns@.len(),
                strip_seq(pairs@) == self.patterns@.take(i as int),
                forall|k: int|
                    0 <= k < pairs@.len() ==> (#[trigger] pairs@[k]).0
                        == pairs@[k].1.weight_tenths as u128,
            decreases self.patterns@.len() - i,
        {
            let ghost prev = pairs@;
            let p = self.patterns[i].clone();
            pairs.push((p.weight_tenths as u128, p));
            proof {
                assert(strip_seq(pairs@) =~= strip_seq(prev).push(self.patterns@[i as int]));
                assert(self.patterns@.take(i as int + 1) =~= self.patterns@.take(i as int).push(
                    self.patterns@[i as int],
                ));
            }
            i += 1;
        }
        proof {
            assert(self.patterns@.take(self.patterns@.len() as int) =~= self.patterns@);
        }
        let ghost orig = pairs@;
        sort_pairs_desc(&mut pairs);
        proof {
            lemma_strip_multiset(orig, pairs@);
            lemma_multiset_transfer(
                orig,
                pairs@,
                |pr: (u128, ReadingPattern)| pr.0 == pr.1.weight_tenths as u128,
            );
        }
        let v = strip_pairs(pairs);
        proof {
            assert forall|i2: int, j2: int|
                0 <= i2 < j2 < v@.len() implies (#[trigger] v@[i2]).weight_tenths
                >= (#[trigger] v@[j2]).weight_tenths by {
                assert(v@[i2] == strip_seq(pairs@)[i2]);
                assert(v@[j2] == strip_seq(pairs@)[j2]);
            }
        }
        Ok(v)
    }

    /// The aggregate score of each topic over read articles only, highest
    /// first, capped at `limit`.
    pub fn get_top_read_topics(&self, limit: i32) -> (r: Result<Vec<(String, u128)>, PatinaError>)
        requires
            self.wf(),
            0 <= limit,
        ensures
            (match r {
                Ok(v) => top_topics_post(self.topics@, self.articles@, v@, limit as int),
                Err(_) => false,
            }),
    {
        let ghost ots = self.topics@;
        let ghost ars = self.articles@;
        let mut acc: Vec<(String, u128)> = Vec::new();
        let mut i: usize = 0;
        while i < self.topics.len()
            invariant
                self.wf(),
                ots == self.topics@,
                ars == self.articles@,
                i <= ots.len(),
                forall|k: int|
                    0 <= k < acc@.len() ==> (#[trigger] acc@[k]).1 as int == read_topic_total(
                        ots.take(i as int),
                        ars,
                        acc@[k].0@,
                    ),
                forall|k1: int, k2: int|
                    0 <= k1 < k2 < acc@.len() ==> (#[trigger] acc@[k1]).0@
                        != (#[trigger] acc@[k2]).0@,
                forall|k: int|
                    0 <= k < acc@.len() ==> is_read_topic(ots, ars, (#[trigger] acc@[k]).0@),
                forall|j: int|
                    0 <= j < i && article_is_read(ars, (#[trigger] ots[j]).article_id)
                        ==> exists|k: int|
                        0 <= k < acc@.len() && (#[trigger] acc@[k]).0@ == ots[j].topic@,
            decreases ots.len() - i,
        {
            proof {
                assert(ots.take(i as int + 1).drop_last() =~= ots.take(i as int));
                assert(ots.take(i as int + 1).last() == ots[i as int]);
            }
            let row_read = article_is_read_exec(&self.articles, self.topics[i].article_id);
            if row_read {
                let ghost prev = acc@;
                let pos = find_topic_pos(&acc, &self.topics[i].topic);
                match pos {
                    Some(k) => {
                        proof {
                            lemma_read_total_bounds(ots.take(i as int), ars, prev[k as int].0@);
                            assert((i as int) * (u64::MAX as int) + (u64::MAX as int) == (i as int
                                + 1) * (u64::MAX as int)) by (nonlinear_arith);
                            assert((i as int + 1) * (u64::MAX as int) < u128::MAX as int)
                                by (nonlinear_arith)
                                requires
                                    0 <= i as int + 1 <= u64::MAX as int + 1,
                            ;
                        }
                        let t = acc[k].0.clone();
                        let total = acc[k].1 + self.topics[i].score as u128;
                        acc.set(k, (t, total));
                        proof {
                            assert forall|k2: int|
                                0 <= k2 < acc@.len() implies (#[trigger] acc@[k2]).1 as int
                                == read_topic_total(ots.take(i as int + 1), ars, acc@[k2].0@) by {
                                if k2 == k as int {
                                    assert(acc@[k2].0@ == ots[i as int].topic@);
                                } else {
                                    assert(acc@[k2] == prev[k2]);
                                    assert(prev[k2].0@ != prev[k as int].0@);
                                }
                            }
                            assert forall|j: int|
                                0 <= j < i + 1 && article_is_read(
                                ars,
                                (#[trigger] ots[j]).article_id,
                            ) implies exists|k2: int|
                                0 <= k2 < acc@.len() && (#[trigger] acc@[k2]).0@
                                    == ots[j].topic@ by {
                                if j == i as int {
                                    assert(acc@[k as int].0@ == ots[j].topic@);
                                } else {
                                    let k2 = choose|k2: int|
                                        0 <= k2 < prev.len() && (#[trigger] prev[k2]).0@
                                            == ots[j].topic@;
                                    assert(acc@[k2].0@ == ots[j].topic@);
                                }
                            }
                        }
                    },
                    None => {
                        proof {
                            assert forall|j: int|
                                0 <= j < i implies !((#[trigger] ots[j]).topic@
                                == ots[i as int].topic@ && article_is_read(
                                ars,
                                ots[j].article_id,
                            )) by {
                                if ots[j].topic@ == ots[i as int].topic@ && article_is_read(
                                    ars,
                                    ots[j].article_id,
                                ) {
                                    let k = choose|k: int|
                                        0 <= k < prev.len() && (#[trigger] prev[k]).0@
                                            == ots[j].topic@;
                                }
                            }
                            lemma_read_total_zero(ots.take(i as int), ars, ots[i as int].topic@);
                        }
                        acc.push((self.topics[i].topic.clone(), self.topics[i].score as u128));
                        proof {
                            assert forall|k2: int|
                                0 <= k2 < acc@.len() implies (#[trigger] acc@[k2]).1 as int
                                == read_topic_total(ots.take(i as int + 1), ars, acc@[k2].0@) by {
                                if k2 == acc@.len() - 1 {
                                    assert(acc@[k2].0@ == ots[i as int].topic@);
                                } else {
                                    assert(acc@[k2] == prev[k2]);
                                }
                            }
                            assert(is_read_topic(ots, ars, ots[i as int].topic@));
                            assert forall|j: int|
                                0 <= j < i + 1 && article_is_read(
                                ars,
                                (#[trigger] ots[j]).article_id,
                            ) implies exists|k2: int|
                                0 <= k2 < acc@.len() && (#[trigger] acc@[k2]).0@
                                    == ots[j].topic@ by {
                                if j == i as int {
                                    assert(acc@[acc@.len() - 1].0@ == ots[j].topic@);
                                } else {
                                    let k2 = choose|k2: int|
                                        0 <= k2 < prev.len() && (#[trigger] prev[k2]).0@
                                            == ots[j].topic@;
                                    assert(acc@[k2].0@ == ots[j].topic@);
                                }
                            }
                        }
                    },
                }
            } else {
                proof {
                    assert(forall|k: int|
                        0 <= k < acc@.len() ==> read_topic_total(
                            ots.take(i as int + 1),
                            ars,
                            (#[trigger] acc@[k]).0@,
                        ) == read_topic_total(ots.take(i as int), ars, acc@[k].0@));
                }
            }
            i += 1;
        }
        proof {
            assert(ots.take(ots.len() as int) =~= ots);
        }
        // rank the grouped totals, highest first
        let ghost groups = acc@;
        let mut pairs: Vec<(u128, (String, u128))> = Vec::new();
        let mut acc = acc;
        while acc.len() > 0
            invariant
                groups.len() == pairs@.len() + acc@.len(),
                acc@ == groups.skip(pairs@.len() as int),
                strip_seq(pairs@) == groups.take(pairs@.len() as int),
                forall|k: int| 0 <= k < pairs@.len() ==> (#[trigger] pairs@[k]).0 == pairs@[k].1.1,
            decreases acc@.len(),
        {
            let ghost n = pairs@.len() as int;
            let e = acc.remove(0);
            proof {
                assert(groups.skip(n)[0] == groups[n]);
                assert(groups.skip(n).remove(0) =~= groups.skip(n + 1));
            }
            pairs.push((e.1, e));
            proof {
                assert(strip_seq(pairs@) =~= groups.take(n + 1)) by {
                    assert(groups.take(n + 1)[n] == groups[n]);
                    assert(forall|q: int| 0 <= q < n ==> groups.take(n + 1)[q] == groups.take(n)[q]);
                }
            }
        }
        proof {
            assert(groups.take(pairs@.len() as int) =~= groups);
        }
        let ghost orig_pairs = pairs@;
        sort_pairs_desc(&mut pairs);
        proof {
            lemma_strip_multiset(orig_pairs, pairs@);
            lemma_multiset_transfer(
                orig_pairs,
                pairs@,
                |pr: (u128, (String, u128))| pr.0 == pr.1.1,
            );
        }
        let mut v = strip_pairs(pairs);
        let ghost full = v@;
        proof {
            lemma_multiset_transfer(
                groups,
                full,
                |e: (String, u128)| e.1 as int == read_topic_total(ots, ars, e.0@)
                    && is_read_topic(ots, ars, e.0@),
            );
            crate::order::lemma_distinct_by_transfer(groups, full, |e: (String, u128)| e.0@);
            assert forall|i2: int, j2: int| 0 <= i2 < j2 < full.len() implies (#[trigger] full[i2]).1
                >= (#[trigger] full[j2]).1 by {
                assert(full[i2] == strip_seq(pairs@)[i2]);
                assert(full[j2] == strip_seq(pairs@)[j2]);
            }
            broadcast use vstd::seq_lib::group_to_multiset_ensures;

            assert(full.len() == full.to_multiset().len());
            assert(groups.len() == groups.to_multiset().len());
        }
        let m: usize = if (limit as usize) < v.len() {
            limit as usize
        } else {
            v.len()
        };
        v.truncate(m);
        proof {
            assert(v@ =~= full.take(m as int));
            lemma_take_multiset_subset(full, m as int);
            if m > 0 {
                let le = |x: (String, u128), y: (String, u128)| x.1 >= y.1;
                assert(vstd::relations::sorted_by(full, le));
                lemma_sorted_cut(full, m as int, le);
                assert(v@.last() == full[m as int - 1]);
            }
            assert forall|j: int|
                0 <= j < ots.len() && article_is_read(ars, (#[trigger] ots[j]).article_id) implies (
            exists|k: int| 0 <= k < v@.len() && (#[trigger] v@[k]).0@ == ots[j].topic@) || (v@.len()
                == limit && (v@.len() > 0 ==> read_topic_total(ots, ars, ots[j].topic@)
                <= v@.last().1 as int)) by {
                let t = ots[j].topic@;
                let kg = choose|k: int| 0 <= k < groups.len() && (#[trigger] groups[k]).0@ == t;
                let e = groups[kg];
                assert(groups.contains(e));
                broadcast use vstd::seq_lib::group_to_multiset_ensures;

                assert(groups.to_multiset().count(e) > 0);
                assert(full.to_multiset().count(e) > 0);
                assert(full.contains(e));
                let kf = choose|k: int| 0 <= k < full.len() && full[k] == e;
                if kf < m {
                    assert(v@[kf] == e);
                    assert(v@[kf].0@ == t);
                } else {
                    assert(full.len() > m as int);
                    assert(m == limit as usize);
                    assert(v@.len() == limit);
                    // e cannot also sit in the kept prefix: topics there are
                    // pairwise distinct from e's
                    if exists|k: int| 0 <= k < v@.len() && (#[trigger] v@[k]).0@ == t {
                    } else {
                        assert forall|k: int| 0 <= k < m implies full[k] != e by {
                            if full[k] == e {
                                assert(v@[k] == e);
                                assert(v@[k].0@ == t);
                            }
                        }
                        assert(v@.to_multiset().count(e) == 0) by {
                            if v@.to_multiset().count(e) > 0 {
                                assert(v@.contains(e));
                                let kk = choose|k: int| 0 <= k < v@.len() && v@[k] == e;
                                assert(full[kk] == e);
                            }
                        }
                        assert(full.to_multiset().count(e) > v@.to_multiset().count(e));
                        if m > 0 {
                            assert(e.1 <= full[m as int - 1].1);
                            assert(e.1 as int == read_topic_total(ots, ars, t));
                        }
                    }
                }
            }
        }
        Ok(v)
    }

    /// Unread articles ranked for the surfacer.  With ranking topics given,
    /// articles are ordered by their summed association score over that
    /// topic set, highest first, and capped at `limit`; ties rank in no
    /// promised order.  With no topics, some `limit` unread articles are
    /// returned in no promised order.
    pub fn get_unread_articles_with_topics(&self, topics: &Vec<String>, limit: i32) -> (r: Result<
        Vec<Article>,
        PatinaError,
    >)
        requires
            self.wf(),
            0 <= limit,
        ensures
            (match r {
                Ok(v) => {
                    let usel = articles_sel(
                        self.articles@,
                        self.feeds@,
                        |a: Article| !a.is_read,
                    );
                    &&& v@.len() == vstd::math::min(limit as int, usel.len() as int)
                    &&& forall|x: Article|
                        #[trigger] v@.to_multiset().count(x) <= usel.to_multiset().count(x)
                    &&& (topics@.len() > 0 ==> forall|i: int, j: int|
                        0 <= i < j < v@.len() ==> crate::order::art_score(
                            self.topics@,
                            topics@,
                            v@[i].id,
                        ) >= crate::order::art_score(self.topics@, topics@, v@[j].id))
                    &&& (topics@.len() > 0 ==> forall|x: Article|
                        v@.len() > 0 && usel.to_multiset().count(x)
                            > #[trigger] v@.to_multiset().count(x) ==> crate::order::art_score(
                            self.topics@,
                            topics@,
                            x.id,
                        ) <= crate::order::art_score(self.topics@, topics@, v@.last().id))
                },
                Err(_) => false,
            }),
    {
        let ghost p = sel_pred(None, true);
        let ghost usel0 = articles_sel(self.articles@, self.feeds@, |a: Article| !a.is_read);
        proof {
            lemma_articles_sel_ext(self.articles@, self.feeds@, p, |a: Article| !a.is_read);
        }
        let mut pairs: Vec<(u128, Article)> = Vec::new();
        let mut i: usize = 0;
        while i < self.articles.len()
            invariant
                self.wf(),
                i <= self.articles@.len(),
                strip_seq(pairs@) == articles_sel(self.articles@.take(i as int), self.feeds@, p),
                forall|k: int|
                    0 <= k < pairs@.len() ==> (#[trigger] pairs@[k]).0 as int
                        == crate::order::art_score(self.topics@, topics@, pairs@[k].1.id),
                p == sel_pred(None, true),
            decreases self.articles@.len() - i,
        {
            proof {
                assert(self.articles@.take(i as int + 1).drop_last() =~= self.articles@.take(
                    i as int,
                ));
                assert(self.articles@.take(i as int + 1).last() == self.articles@[i as int]);
            }
            let a = &self.articles[i];
            if !a.is_read {
                let ghost prev = pairs@;
                let att = join_article(&self.feeds, a);
                let key = crate::order::art_score_exec(&self.topics, topics, att.id);
                pairs.push((key, att));
                proof {
                    assert(strip_seq(pairs@) =~= strip_seq(prev).push(att));
                }
            }
            i += 1;
        }
        proof {
            assert(self.articles@.take(self.articles@.len() as int) =~= self.articles@);
        }
        let ghost orig_pairs = pairs@;
        sort_pairs_desc(&mut pairs);
        proof {
            lemma_strip_multiset(orig_pairs, pairs@);
            lemma_multiset_transfer(
                orig_pairs,
                pairs@,
                |pr: (u128, Article)| pr.0 as int == crate::order::art_score(
                    self.topics@,
                    topics@,
                    pr.1.id,
                ),
            );
        }
        let mut v = strip_pairs(pairs);
        let ghost full = v@;
        proof {
            assert forall|i2: int, j2: int|
                0 <= i2 < j2 < full.len() implies crate::order::art_score(
                self.topics@,
                topics@,
                full[i2].id,
            ) >= crate::order::art_score(self.topics@, topics@, full[j2].id) by {
                assert(full[i2] == strip_seq(pairs@)[i2]);
                assert(full[j2] == strip_seq(pairs@)[j2]);
            }
            broadcast use vstd::seq_lib::group_to_multiset_ensures;

            assert(full.len() == full.to_multiset().len());
            assert(usel0.len() == usel0.to_multiset().len());
        }
        let m: usize = if (limit as usize) < v.len() {
            limit as usize
        } else {
            v.len()
        };
        v.truncate(m);
        proof {
            assert(v@ =~= full.take(m as int));
            lemma_take_multiset_subset(full, m as int);
            if m > 0 {
                let le = |x: Article, y: Article| crate::order::art_score(
                    self.topics@,
                    topics@,
                    x.id,
                ) >= crate::order::art_score(self.topics@, topics@, y.id);
                assert(vstd::relations::sorted_by(full, le));
                lemma_sorted_cut(full, m as int, le);
                assert(v@.last() == full[m as int - 1]);
            }
        }
        Ok(v)
    }

    /// The store stays well-formed when articles change only in their read
    /// flag and timestamp.
    proof fn lemma_wf_after_flag_change(self, prev: Database)
        requires
            prev.wf(),
            self.feeds@ == prev.feeds@,
            self.patterns@ == prev.patterns@,
            self.topics@ == prev.topics@,
            self.next_feed_id == prev.next_feed_id,
            self.next_article_id == prev.next_article_id,
            self.next_pattern_id == prev.next_pattern_id,
            self.articles@.len() == prev.articles@.len(),
            forall|q: int|
                0 <= q < prev.articles@.len() ==> {
                    &&& (#[trigger] self.articles@[q]).id == prev.articles@[q].id
                    &&& self.articles@[q].feed_id == prev.articles@[q].feed_id
                    &&& self.articles@[q].url@ == prev.articles@[q].url@
                    &&& self.articles@[q].feed_title == prev.articles@[q].feed_title
                    &&& (!self.articles@[q].is_read ==> self.articles@[q].read_at is None)
                },
        ensures
            self.wf(),
    {
        assert forall|k: int|
            0 <= k < self.topics@.len() implies has_article_id(
            self.articles@,
            (#[trigger] self.topics@[k]).article_id,
        ) by {
            let q = choose|q: int|
                0 <= q < prev.articles@.len() && (#[trigger] prev.articles@[q]).id
                    == self.topics@[k].article_id;
            assert(self.articles@[q].id == self.topics@[k].article_id);
        }
    }

    /// Rewrites a feed's title, site url and last-fetch time from parsed
    /// metadata; articles are untouched, and a missing id is a no-op.
    pub fn update_feed_metadata(&mut self, id: i64, feed: &ParsedFeed) -> (r: Result<
        (),
        PatinaError,
    >)
        requires
            old(self).wf(),
        ensures
            final(self).wf(),
            r is Ok,
            final(self).feeds@.len() == old(self).feeds@.len(),
            forall|i: int|
                0 <= i < old(self).feeds@.len() && (#[trigger] old(self).feeds@[i]).id != id
                    ==> final(self).feeds@[i] == old(self).feeds@[i],
            forall|i: int|
                0 <= i < old(self).feeds@.len() && (#[trigger] old(self).feeds@[i]).id == id ==> {
                    &&& final(self).feeds@[i].id == id
                    &&& final(self).feeds@[i].title == feed.title
                    &&& final(self).feeds@[i].site_url == feed.site_url
                    &&& final(self).feeds@[i].url == old(self).feeds@[i].url
                    &&& final(self).feeds@[i].created_at == old(self).feeds@[i].created_at
                    &&& final(self).feeds@[i].last_fetched_at is Some
                },
            final(self).articles@ == old(self).articles@,
            final(self).patterns@ == old(self).patterns@,
            final(self).topics@ == old(self).topics@,
            final(self).next_feed_id == old(self).next_feed_id,
            final(self).next_article_id == old(self).next_article_id,
            final(self).next_pattern_id == old(self).next_pattern_id,
    {
        let ghost ofs = self.feeds@;
        let mut i: usize = 0;
        while i < self.feeds.len()
            invariant
                i <= self.feeds@.len(),
                self.feeds@.len() == ofs.len(),
                forall|q: int| i <= q < ofs.len() ==> self.feeds@[q] == ofs[q],
                forall|q: int|
                    0 <= q < i && (#[trigger] ofs[q]).id != id ==> self.feeds@[q] == ofs[q],
                forall|q: int|
                    0 <= q < i && (#[trigger] ofs[q]).id == id ==> {
                        &&& self.feeds@[q].id == id
                        &&& self.feeds@[q].title == feed.title
                        &&& self.feeds@[q].site_url == feed.site_url
                        &&& self.feeds@[q].url == ofs[q].url
                        &&& self.feeds@[q].created_at == ofs[q].created_at
                        &&& self.feeds@[q].last_fetched_at is Some
                    },
                self.articles@ == old(self).articles@,
                self.patterns@ == old(self).patterns@,
                self.topics@ == old(self).topics@,
                self.next_feed_id == old(self).next_feed_id,
                self.next_article_id == old(self).next_article_id,
                self.next_pattern_id == old(self).next_pattern_id,
                ofs == old(self).feeds@,
            decreases self.feeds@.len() - i,
        {
            if self.feeds[i].id == id {
                let now = now_ts();
                let updated = FeedRow {
                    id,
                    title: feed.title.clone(),
                    url: self.feeds[i].url.clone(),
                    site_url: clone_opt_string(&feed.site_url),
                    last_fetched_at: Some(now),
                    created_at: self.feeds[i].created_at,
                };
                self.feeds.set(i, updated);
            }
            i += 1;
        }
        proof {
            let fs = self.feeds@;
            assert(feed_ids_unique(fs)) by {
                assert(forall|p: int, q: int|
                    0 <= p < q < fs.len() ==> (#[trigger] fs[p]).id == ofs[p].id
                        && (#[trigger] fs[q]).id == ofs[q].id);
            }
            assert(feed_urls_unique(fs)) by {
                assert(forall|p: int, q: int|
                    0 <= p < q < fs.len() ==> (#[trigger] fs[p]).url@ == ofs[p].url@
                        && (#[trigger] fs[q]).url@ == ofs[q].url@);
            }
            assert(forall|i2: int|
                0 <= i2 < fs.len() ==> 1 <= (#[trigger] fs[i2]).id < self.next_feed_id) by {
                assert(forall|i2: int| 0 <= i2 < fs.len() ==> (#[trigger] fs[i2]).id == ofs[i2].id);
            }
            assert forall|k: int|
                0 <= k < self.articles@.len() implies has_feed_id(
                fs,
                (#[trigger] self.articles@[k]).feed_id,
            ) by {
                let q = choose|q: int|
                    0 <= q < ofs.len() && (#[trigger] ofs[q]).id == self.articles@[k].feed_id;
                assert(fs[q].id == self.articles@[k].feed_id);
            }
        }
        Ok(())
    }
}

// ---------------------------------------------------------------------------
// Laws of the store.
// ---------------------------------------------------------------------------

/// Idempotent insert: however an article arrived, a well-formed store holds
/// exactly one row per (feed, url) key, so re-inserting a seen article
/// cannot duplicate it (and `insert_article` leaves the store untouched on
/// a seen key).
pub proof fn lemma_article_key_unique(
    articles: Seq<Article>,
    feed_id: i64,
    url: Seq<char>,
    i: int,
    j: int,
)
    requires
        article_keys_unique(articles),
        0 <= i < articles.len(),
        0 <= j < articles.len(),
        articles[i].feed_id == feed_id && articles[i].url@ == url,
        articles[j].feed_id == feed_id && articles[j].url@ == url,
    ensures
        i == j,
{
}

/// Unread-count correctness: marking an unread article read decrements its
/// feed's computed unread count by exactly one and leaves every other
/// feed's count unchanged.
pub proof fn lemma_mark_read_decrements_unread(
    before: Seq<Article>,
    after: Seq<Article>,
    id: i64,
    i: int,
)
    requires
        article_ids_unique(before),
        marked_read(before, after, id),
        0 <= i < before.len(),
        before[i].id == id,
        !before[i].is_read,
    ensures
        count_unread(after, before[i].feed_id) == count_unread(before, before[i].feed_id) - 1,
        forall|fid: i64|
            fid != before[i].feed_id ==> count_unread(after, fid) == count_unread(before, fid),
    decreases before.len(),
{
    let bdl = before.drop_last();
    let adl = after.drop_last();
    if before.last().id == id {
        assert(i == before.len() - 1);
        assert(adl =~= bdl) by {
            assert forall|q: int| 0 <= q < bdl.len() implies adl[q] == bdl[q] by {
                assert(before[q].id != id);
                assert(after[q] == before[q]);
            }
        }
        assert(after.last().is_read);
        assert(!before.last().is_read && before.last().feed_id == before[i].feed_id);
        assert(after.last().feed_id == before[i].feed_id);
        assert forall|fid: i64|
            fid != before[i].feed_id implies count_unread(after, fid) == count_unread(
            before,
            fid,
        ) by {
            assert(count_unread(adl, fid) == count_unread(bdl, fid));
        }
    } else {
        assert(after.last() == before.last());
        assert(marked_read(bdl, adl, id)) by {
            assert(forall|q: int| 0 <= q < bdl.len() ==> #[trigger] bdl[q] == before[q]);
            assert(forall|q: int| 0 <= q < adl.len() ==> #[trigger] adl[q] == after[q]);
        }
        assert(article_ids_unique(bdl)) by {
            assert(forall|p: int, q: int|
                0 <= p < q < bdl.len() ==> (#[trigger] bdl[p]).id == before[p].id
                    && (#[trigger] bdl[q]).id == before[q].id);
        }
        assert(i < before.len() - 1);
        assert(bdl[i] == before[i]);
        lemma_mark_read_decrements_unread(bdl, adl, id, i);
        assert forall|fid: i64|
            fid != before[i].feed_id implies count_unread(after, fid) == count_unread(
            before,
            fid,
        ) by {
            assert(count_unread(adl, fid) == count_unread(bdl, fid));
        }
    }
}

/// Unread-count correctness, the other way: marking a read article unread
/// increments its feed's unread count by exactly one and leaves every
/// other feed's count unchanged.
pub proof fn lemma_mark_unread_increments_unread(
    before: Seq<Article>,
    after: Seq<Article>,
    id: i64,
    i: int,
)
    requires
        article_ids_unique(before),
        marked_unread(before, after, id),
        0 <= i < before.len(),
        before[i].id == id,
        before[i].is_read,
    ensures
        count_unread(after, before[i].feed_id) == count_unread(before, before[i].feed_id) + 1,
        forall|fid: i64|
            fid != before[i].feed_id ==> count_unread(after, fid) == count_unread(before, fid),
    decreases before.len(),
{
    let bdl = before.drop_last();
    let adl = after.drop_last();
    if before.last().id == id {
        assert(i == before.len() - 1);
        assert(adl =~= bdl) by {
            assert forall|q: int| 0 <= q < bdl.len() implies adl[q] == bdl[q] by {
                assert(before[q].id != id);
                assert(after[q] == before[q]);
            }
        }
        assert(!after.last().is_read);
        assert(after.last().feed_id == before[i].feed_id);
        assert forall|fid: i64|
            fid != before[i].feed_id implies count_unread(after, fid) == count_unread(
            before,
            fid,
        ) by {
            assert(count_unread(adl, fid) == count_unread(bdl, fid));
        }
    } else {
        assert(after.last() == before.last());
        assert(marked_unread(bdl, adl, id)) by {
            assert(forall|q: int| 0 <= q < bdl.len() ==> #[trigger] bdl[q] == before[q]);
            assert(forall|q: int| 0 <= q < adl.len() ==> #[trigger] adl[q] == after[q]);
        }
        assert(article_ids_unique(bdl)) by {
            assert(forall|p: int, q: int|
                0 <= p < q < bdl.len() ==> (#[trigger] bdl[p]).id == before[p].id
                    && (#[trigger] bdl[q]).id == before[q].id);
        }
        assert(i < before.len() - 1);
        assert(bdl[i] == before[i]);
        lemma_mark_unread_increments_unread(bdl, adl, id, i);
        assert forall|fid: i64|
            fid != before[i].feed_id implies count_unread(after, fid) == count_unread(
            before,
            fid,
        ) by {
            assert(count_unread(adl, fid) == count_unread(bdl, fid));
        }
    }
}

/// Marking an article read again changes nothing but the read timestamp:
/// any run of read-markings amounts to a single one, so the round trip
/// below also covers an article read several times before it is marked
/// unread.
pub proof fn lemma_marked_read_compose(s0: Seq<Article>, s1: Seq<Article>, s2: Seq<Article>, id: i64)
    requires
        marked_read(s0, s1, id),
        marked_read(s1, s2, id),
    ensures
        marked_read(s0, s2, id),
{
    assert forall|j: int|
        0 <= j < s0.len() && (#[trigger] s0[j]).id != id implies s2[j] == s0[j] by {
        assert(s1[j] == s0[j]);
    }
    assert forall|j: int|
        0 <= j < s0.len() && (#[trigger] s0[j]).id == id implies s2[j] == (Article {
        is_read: true,
        read_at: s2[j].read_at,
        ..s0[j]
    }) && s2[j].read_at is Some by {
        assert(s1[j] == (Article { is_read: true, read_at: s1[j].read_at, ..s0[j] }));
        assert(s1[j].id == id);
        assert(s2[j] == (Article { is_read: true, read_at: s2[j].read_at, ..s1[j] }));
    }
}

/// Read/unread round-trip: marking an article read and then unread again
/// leaves every article exactly as it was, provided the article was unread
/// to begin with (an unread article carries no read timestamp).
pub proof fn lemma_read_unread_round_trip(
    s0: Seq<Article>,
    s1: Seq<Article>,
    s2: Seq<Article>,
    id: i64,
)
    requires
        marked_read(s0, s1, id),
        marked_unread(s1, s2, id),
        forall|j: int|
            0 <= j < s0.len() && (#[trigger] s0[j]).id == id ==> !s0[j].is_read && s0[j].read_at
                is None,
    ensures
        s2 =~= s0,
{
    assert forall|j: int| 0 <= j < s0.len() implies s2[j] == s0[j] by {
        if s0[j].id == id {
            assert(s1[j] == (Article { is_read: true, read_at: s1[j].read_at, ..s0[j] }));
            assert(s1[j].id == id);
            assert(s2[j] == (Article { is_read: false, read_at: None, ..s1[j] }));
        } else {
            assert(s1[j] == s0[j]);
            assert(s1[j].id != id);
            assert(s2[j] == s1[j]);
        }
    }
}

/// Cascading delete: after deleting a feed, no feed with that id remains,
/// none of its articles remain, and every surviving topic association
/// still points at a surviving article.
pub proof fn lemma_delete_feed_cascade(
    feeds: Seq<FeedRow>,
    articles: Seq<Article>,
    topics: Seq<TopicRow>,
    id: i64,
)
    requires
        feed_ids_unique(feeds),
        feed_urls_unique(feeds),
        article_ids_unique(articles),
        article_keys_unique(articles),
        topic_keys_unique(topics),
    ensures
        forall|k: int|
            0 <= k < feeds_without(feeds, id).len() ==> (#[trigger] feeds_without(feeds, id)[k]).id
                != id,
        forall|k: int|
            0 <= k < articles_without_feed(articles, id).len() ==> (#[trigger] articles_without_feed(
                articles,
                id,
            )[k]).feed_id != id,
        forall|k: int|
            0 <= k < topics_for_articles(topics, articles_without_feed(articles, id)).len()
                ==> has_article_id(
                articles_without_feed(articles, id),
                (#[trigger] topics_for_articles(
                    topics,
                    articles_without_feed(articles, id),
                )[k]).article_id,
            ),
{
    lemma_feeds_without_props(feeds, id);
    lemma_articles_without_props(articles, id);
    lemma_topics_for_props(topics, articles_without_feed(articles, id));
    assert forall|k: int|
        0 <= k < feeds_without(feeds, id).len() implies (#[trigger] feeds_without(feeds, id)[k]).id
        != id by {
        let j = choose|j: int|
            0 <= j < feeds.len() && #[trigger] feeds_without(feeds, id)[k] == feeds[j]
                && feeds[j].id != id;
    }
    assert forall|k: int|
        0 <= k < articles_without_feed(articles, id).len() implies (#[trigger] articles_without_feed(
        articles,
        id,
    )[k]).feed_id != id by {
        let j = choose|j: int|
            0 <= j < articles.len() && #[trigger] articles_without_feed(articles, id)[k]
                == articles[j] && articles[j].feed_id != id;
    }
}

/// Pattern weight accumulation: adding a pattern that is already present
/// under its (kind, value) key strengthens that single row's weight by a
/// tenth instead of creating a second row; in particular, adding the same
/// fresh pattern twice yields one row of weight eleven tenths.
pub proof fn lemma_pattern_weight_accumulates(
    s0: Seq<ReadingPattern>,
    a: ReadingPattern,
    s2: Seq<ReadingPattern>,
    kind: Seq<char>,
    value: Seq<char>,
)
    requires
        pattern_keys_unique(s0),
        !has_pattern_key(s0, kind, value),
        a.pattern_type@ == kind,
        a.value@ == value,
        a.weight_tenths == 10,
        s2.len() == s0.push(a).len(),
        forall|j: int|
            0 <= j < s0.push(a).len() && !((#[trigger] s0.push(a)[j]).pattern_type@ == kind
                && s0.push(a)[j].value@ == value) ==> s2[j] == s0.push(a)[j],
        forall|j: int|
            0 <= j < s0.push(a).len() && ((#[trigger] s0.push(a)[j]).pattern_type@ == kind
                && s0.push(a)[j].value@ == value) ==> s2[j] == (ReadingPattern {
                weight_tenths: bump_weight(s0.push(a)[j].weight_tenths),
                ..s0.push(a)[j]
            }),
    ensures
        s2.len() == s0.len() + 1,
        forall|j: int| 0 <= j < s0.len() ==> s2[j] == s0[j],
        s2[s0.len() as int].pattern_type@ == kind,
        s2[s0.len() as int].value@ == value,
        s2[s0.len() as int].weight_tenths == 11,
{
    let s1 = s0.push(a);
    assert(s1[s0.len() as int] == a);
    assert forall|j: int| 0 <= j < s0.len() implies s2[j] == s0[j] by {
        assert(s1[j] == s0[j]);
        assert(!(s0[j].pattern_type@ == kind && s0[j].value@ == value));
    }
    assert(bump_weight(10u64) == 11u64);
}


} // verus!
