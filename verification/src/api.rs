use vstd::prelude::*;
use crate::db::{
    articles_sel, all_feeds_sel, bump_weight, count_unread, feed_row_of, feed_with_count,
    has_article_key, has_feed_id, has_feed_url, has_pattern_key, marked_read, marked_unread,
    patterns_without, Database,
};
use crate::models::{Article, Feed, ParsedFeed, ReadingPattern};
use crate::order::feeds_sorted;
use crate::PatinaError;

verus! {

/// What parsing and normalizing a URL yields: its canonical written form,
/// a result of the input alone, or nothing for an invalid address.
pub uninterp spec fn url_normal_of(s: Seq<char>) -> Option<Seq<char>>;

/// Relies on url::Url::parse for validating the address and on Url::as_str
/// for its canonical form.
#[verifier::external_body]
fn normalize_url(s: &str) -> (r: Result<String, ()>)
    ensures
        (match r {
            Ok(u) => url_normal_of(s@) == Some(u@),
            Err(_) => url_normal_of(s@) is None,
        }),
{
    match url::Url::parse(s) {
        Ok(u) => Ok(u.as_str().to_owned()),
        Err(_) => Err(()),
    }
}

/// The main interface to the feed-reading core: one owned store, every
/// operation on it serialized through exclusive access to this value.
pub struct PatinaCore {
    pub db: Database,
}

impl PatinaCore {
    /// A core over an empty store.
    pub fn new() -> (r: PatinaCore)
        ensures
            r.db.wf(),
            r.db.feeds@.len() == 0,
            r.db.articles@.len() == 0,
            r.db.patterns@.len() == 0,
            r.db.topics@.len() == 0,
            r.db.next_feed_id == 1,
            r.db.next_article_id == 1,
            r.db.next_pattern_id == 1,
    {
        PatinaCore { db: Database::new() }
    }

    /// Validates a subscription address and checks it is not yet
    /// subscribed; returns the canonical address the fetch layer should
    /// load.
    pub fn add_feed_prepare(&self, url: &str) -> (r: Result<String, PatinaError>)
        requires
            self.db.wf(),
        ensures
            (match r {
                Ok(u) => url_normal_of(url@) == Some(u@) && !has_feed_url(self.db.feeds@, u@),
                Err(e) => match e {
                    PatinaError::InvalidUrl(_) => url_normal_of(url@) is None,
                    PatinaError::FeedAlreadyExists(t) => {
                        &&& url_normal_of(url@) matches Some(nu)
                        &&& exists|i: int|
                            0 <= i < self.db.feeds@.len() && (#[trigger] self.db.feeds@[i]).url@
                                == url_normal_of(url@)->0 && t@ == self.db.feeds@[i].title@
                    },
                    _ => false,
                },
            }),
    {
        let normalized = match normalize_url(url) {
            Ok(u) => u,
            Err(_) => {
                return Err(PatinaError::InvalidUrl("unparsable address".to_owned()));
            },
        };
        match self.db.get_feed_by_url(normalized.as_str()) {
            Some(existing) => Err(PatinaError::FeedAlreadyExists(existing.title)),
            None => Ok(normalized),
        }
    }

    /// Registers a fetched and parsed feed: creates the subscription and
    /// stores its articles, ignoring already-seen ones, then returns the
    /// feed with its computed unread count.
    pub fn add_feed_commit(&mut self, feed_data: &ParsedFeed) -> (r: Result<Feed, PatinaError>)
        requires
            old(self).db.wf(),
        ensures
            final(self).db.wf(),
            (match r {
                Ok(f) => {
                    &&& !has_feed_url(old(self).db.feeds@, feed_data.url@)
                    &&& f.url == feed_data.url
                    &&& f.title == feed_data.title
                    &&& f.site_url == feed_data.site_url
                    &&& f.id == old(self).db.next_feed_id
                    &&& final(self).db.feeds@ == old(self).db.feeds@.push(feed_row_of(f))
                    &&& f.unread_count == count_unread(final(self).db.articles@, f.id)
                    &&& final(self).db.articles@.len() >= old(self).db.articles@.len()
                    &&& forall|j: int|
                        0 <= j < old(self).db.articles@.len() ==> final(self).db.articles@[j]
                            == old(self).db.articles@[j]
                    &&& forall|j: int|
                        old(self).db.articles@.len() <= j < final(self).db.articles@.len() ==> {
                            &&& (#[trigger] final(self).db.articles@[j]).feed_id == f.id
                            &&& final(self).db.articles@[j].is_read == false
                            &&& exists|k: int|
                                0 <= k < feed_data.articles@.len() && {
                                    let pa = #[trigger] feed_data.articles@[k];
                                    &&& final(self).db.articles@[j].title == pa.title
                                    &&& final(self).db.articles@[j].url == pa.url
                                    &&& final(self).db.articles@[j].summary == pa.summary
                                    &&& final(self).db.articles@[j].published_at == pa.published_at
                                }
                        }
                    &&& (forall|k: int|
                        0 <= k < feed_data.articles@.len() ==> has_article_key(
                            final(self).db.articles@,
                            f.id,
                            (#[trigger] feed_data.articles@[k]).url@,
                        )) || final(self).db.next_article_id == i64::MAX
                    &&& final(self).db.patterns@ == old(self).db.patterns@
                    &&& final(self).db.topics@ == old(self).db.topics@
                },
                Err(e) => {
                    &&& *final(self) == *old(self)
                    &&& (has_feed_url(old(self).db.feeds@, feed_data.url@) ==> e
                        matches PatinaError::FeedAlreadyExists(_))
                    &&& (has_feed_url(old(self).db.feeds@, feed_data.url@) || old(
                        self,
                    ).db.next_feed_id == i64::MAX)
                },
            }),
    {
        let inserted = match self.db.insert_feed(feed_data) {
            Ok(f) => f,
            Err(e) => {
                return Err(e);
            },
        };
        let feed_id = inserted.id;
        let ghost mid = self.db;
        proof {
            assert(mid.feeds@[mid.feeds@.len() - 1].id == feed_id);
        }
        let mut k: usize = 0;
        while k < feed_data.articles.len()
            invariant
                self.db.wf(),
                k <= feed_data.articles@.len(),
                mid.wf(),
                has_feed_id(mid.feeds@, feed_id),
                self.db.feeds@ == mid.feeds@,
                self.db.patterns@ == mid.patterns@,
                self.db.topics@ == mid.topics@,
                self.db.next_feed_id == mid.next_feed_id,
                self.db.articles@.len() >= mid.articles@.len(),
                forall|j: int|
                    0 <= j < mid.articles@.len() ==> self.db.articles@[j] == mid.articles@[j],
                forall|j: int|
                    mid.articles@.len() <= j < self.db.articles@.len() ==> {
                        &&& (#[trigger] self.db.articles@[j]).feed_id == feed_id
                        &&& self.db.articles@[j].is_read == false
                        &&& exists|k2: int|
                            0 <= k2 < feed_data.articles@.len() && {
                                let pa = #[trigger] feed_data.articles@[k2];
                                &&& self.db.articles@[j].title == pa.title
                                &&& self.db.articles@[j].url == pa.url
                                &&& self.db.articles@[j].summary == pa.summary
                                &&& self.db.articles@[j].published_at == pa.published_at
                            }
                    },
                (forall|k2: int|
                    0 <= k2 < k ==> has_article_key(
                        self.db.articles@,
                        feed_id,
                        (#[trigger] feed_data.articles@[k2]).url@,
                    )) || self.db.next_article_id == i64::MAX,
            decreases feed_data.articles@.len() - k,
        {
            let ghost pre = self.db;
            let res = self.db.insert_article(feed_id, &feed_data.articles[k]);
            proof {
                let pa = feed_data.articles@[k as int];
                if res is Ok {
                    let a = res->Ok_0;
                    if !has_article_key(pre.articles@, feed_id, pa.url@) {
                        // a fresh row was appended
                        assert(self.db.articles@ == pre.articles@.push(a));
                        assert forall|j: int|
                            mid.articles@.len() <= j < self.db.articles@.len() implies {
                            &&& (#[trigger] self.db.articles@[j]).feed_id == feed_id
                            &&& self.db.articles@[j].is_read == false
                            &&& exists|k2: int|
                                0 <= k2 < feed_data.articles@.len() && {
                                    let pa2 = #[trigger] feed_data.articles@[k2];
                                    &&& self.db.articles@[j].title == pa2.title
                                    &&& self.db.articles@[j].url == pa2.url
                                    &&& self.db.articles@[j].summary == pa2.summary
                                    &&& self.db.articles@[j].published_at == pa2.published_at
                                }
                        } by {
                            if j < pre.articles@.len() {
                                assert(self.db.articles@[j] == pre.articles@[j]);
                                let k2 = choose|k2: int|
                                    0 <= k2 < feed_data.articles@.len() && {
                                        let pa2 = #[trigger] feed_data.articles@[k2];
                                        &&& pre.articles@[j].title == pa2.title
                                        &&& pre.articles@[j].url == pa2.url
                                        &&& pre.articles@[j].summary == pa2.summary
                                        &&& pre.articles@[j].published_at == pa2.published_at
                                    };
                                assert(0 <= k2 < feed_data.articles@.len() && {
                                    let pa2 = feed_data.articles@[k2];
                                    &&& self.db.articles@[j].title == pa2.title
                                    &&& self.db.articles@[j].url == pa2.url
                                    &&& self.db.articles@[j].summary == pa2.summary
                                    &&& self.db.articles@[j].published_at == pa2.published_at
                                });
                            } else {
                                assert(self.db.articles@[j] == a);
                                assert(0 <= (k as int) < feed_data.articles@.len() && {
                                    let pa2 = feed_data.articles@[k as int];
                                    &&& a.title == pa2.title
                                    &&& a.url == pa2.url
                                    &&& a.summary == pa2.summary
                                    &&& a.published_at == pa2.published_at
                                });
                            }
                        }
                    }
                    assert forall|k2: int|
                        0 <= k2 < k + 1 && self.db.next_article_id != i64::MAX implies
                        has_article_key(
                        self.db.articles@,
                        feed_id,
                        (#[trigger] feed_data.articles@[k2]).url@,
                    ) by {
                        if k2 == k as int {
                            if has_article_key(pre.articles@, feed_id, pa.url@) {
                                let q = choose|q: int|
                                    0 <= q < pre.articles@.len()
                                        && (#[trigger] pre.articles@[q]).feed_id == feed_id
                                        && pre.articles@[q].url@ == pa.url@;
                                assert(self.db.articles@[q] == pre.articles@[q]);
                            } else {
                                let a2 = res->Ok_0;
                                assert(self.db.articles@.last().feed_id == feed_id
                                    && self.db.articles@.last().url@ == pa.url@);
                            }
                        } else {
                            assert(pre.next_article_id != i64::MAX) by {
                                if has_article_key(pre.articles@, feed_id, pa.url@) {
                                    assert(self.db == pre);
                                } else {
                                    assert(self.db.next_article_id == pre.next_article_id + 1);
                                }
                            }
                            let q = choose|q: int|
                                0 <= q < pre.articles@.len() && (#[trigger] pre.articles@[q]).feed_id
                                    == feed_id && pre.articles@[q].url@
                                    == feed_data.articles@[k2].url@;
                            assert(self.db.articles@[q] == pre.articles@[q]);
                        }
                    }
                } else {
                    assert(self.db == pre);
                    assert(has_feed_id(pre.feeds@, feed_id));
                    assert(self.db.next_article_id == i64::MAX);
                }
            }
            k += 1;
        }
        let found = self.db.get_feed(feed_id);
        match found {
            Some(f) => {
                proof {
                    let fs = self.db.feeds@;
                    let i = choose|i: int|
                        0 <= i < fs.len() && (#[trigger] fs[i]).id == feed_id && f
                            == feed_with_count(fs[i], count_unread(self.db.articles@, feed_id));
                    assert(fs == old(self).db.feeds@.push(feed_row_of(inserted)));
                    assert forall|q: int|
                        0 <= q < old(self).db.feeds@.len() implies (#[trigger] fs[q]).id
                        != feed_id by {
                        assert(fs[q] == old(self).db.feeds@[q]);
                        assert(old(self).db.feeds@[q].id < old(self).db.next_feed_id);
                    }
                    assert(i == fs.len() - 1);
                    assert(fs[i] == feed_row_of(inserted));
                    assert(feed_row_of(f) == feed_row_of(inserted));
                    crate::db::lemma_count_unread_le(self.db.articles@, feed_id);
                    broadcast use vstd::std_specs::vec::axiom_spec_len;

                    assert(vstd::std_specs::vec::spec_vec_len(&self.db.articles)
                        == self.db.articles@.len());
                    assert(f.unread_count == count_unread(self.db.articles@, f.id));
                }
                Ok(f)
            },
            None => {
                proof {
                    assert(has_feed_id(self.db.feeds@, feed_id));
                    assert(false);
                }
                Err(PatinaError::NotFound)
            },
        }
    }

    /// The feed to refresh, with its current unread count, or a not-found
    /// error when it is gone.
    pub fn refresh_feed_prepare(&self, feed_id: i64) -> (r: Result<Feed, PatinaError>)
        requires
            self.db.wf(),
        ensures
            (match r {
                Ok(f) => exists|i: int|
                    0 <= i < self.db.feeds@.len() && (#[trigger] self.db.feeds@[i]).id == feed_id
                        && f == feed_with_count(
                        self.db.feeds@[i],
                        count_unread(self.db.articles@, feed_id),
                    ),
                Err(e) => e is NotFound && !has_feed_id(self.db.feeds@, feed_id),
            }),
    {
        match self.db.get_feed(feed_id) {
            Some(f) => Ok(f),
            None => Err(PatinaError::NotFound),
        }
    }

    /// Applies a re-fetched feed: rewrites the feed's metadata, stores the
    /// new articles (already-seen ones are ignored), and returns the feed
    /// with its updated unread count.  A vanished feed is a not-found
    /// error, changing nothing.
    pub fn refresh_feed_commit(&mut self, feed_id: i64, feed_data: &ParsedFeed) -> (r: Result<
        Feed,
        PatinaError,
    >)
        requires
            old(self).db.wf(),
        ensures
            final(self).db.wf(),
            r is Err <==> !has_feed_id(old(self).db.feeds@, feed_id),
            (match r {
                Ok(f) => {
                    &&& final(self).db.feeds@.len() == old(self).db.feeds@.len()
                    &&& forall|i: int|
                        0 <= i < old(self).db.feeds@.len() && (#[trigger] old(
                            self,
                        ).db.feeds@[i]).id != feed_id ==> final(self).db.feeds@[i] == old(
                            self,
                        ).db.feeds@[i]
                    &&& forall|i: int|
                        0 <= i < old(self).db.feeds@.len() && (#[trigger] old(
                            self,
                        ).db.feeds@[i]).id == feed_id ==> {
                            &&& final(self).db.feeds@[i].title == feed_data.title
                            &&& final(self).db.feeds@[i].site_url == feed_data.site_url
                            &&& final(self).db.feeds@[i].url == old(self).db.feeds@[i].url
                            &&& final(self).db.feeds@[i].last_fetched_at is Some
                        }
                    &&& f.id == feed_id
                    &&& f.unread_count == count_unread(final(self).db.articles@, feed_id)
                    &&& final(self).db.articles@.len() >= old(self).db.articles@.len()
                    &&& forall|j: int|
                        0 <= j < old(self).db.articles@.len() ==> final(self).db.articles@[j]
                            == old(self).db.articles@[j]
                    &&& forall|j: int|
                        old(self).db.articles@.len() <= j < final(self).db.articles@.len() ==> {
                            &&& (#[trigger] final(self).db.articles@[j]).feed_id == feed_id
                            &&& final(self).db.articles@[j].is_read == false
                            &&& exists|k: int|
                                0 <= k < feed_data.articles@.len() && {
                                    let pa = #[trigger] feed_data.articles@[k];
                                    &&& final(self).db.articles@[j].title == pa.title
                                    &&& final(self).db.articles@[j].url == pa.url
                                    &&& final(self).db.articles@[j].summary == pa.summary
                                    &&& final(self).db.articles@[j].published_at == pa.published_at
                                }
                        }
                    &&& (forall|k: int|
                        0 <= k < feed_data.articles@.len() ==> has_article_key(
                            final(self).db.articles@,
                            feed_id,
                            (#[trigger] feed_data.articles@[k]).url@,
                        )) || final(self).db.next_article_id == i64::MAX
                    &&& final(self).db.patterns@ == old(self).db.patterns@
                    &&& final(self).db.topics@ == old(self).db.topics@
                },
                Err(e) => *final(self) == *old(self) && e is NotFound,
            }),
    {
        let existing = self.db.get_feed(feed_id);
        if existing.is_none() {
            return Err(PatinaError::NotFound);
        }
        match self.db.update_feed_metadata(feed_id, feed_data) {
            Ok(_) => {},
            Err(_) => {},
        }
        let ghost mid = self.db;
        proof {
            let i = choose|i: int|
                0 <= i < old(self).db.feeds@.len() && (#[trigger] old(self).db.feeds@[i]).id
                    == feed_id;
            assert(mid.feeds@[i].id == feed_id);
        }
        let mut k: usize = 0;
        while k < feed_data.articles.len()
            invariant
                self.db.wf(),
                k <= feed_data.articles@.len(),
                mid.wf(),
                has_feed_id(mid.feeds@, feed_id),
                self.db.feeds@ == mid.feeds@,
                self.db.patterns@ == mid.patterns@,
                self.db.topics@ == mid.topics@,
                self.db.next_feed_id == mid.next_feed_id,
                self.db.articles@.len() >= mid.articles@.len(),
                forall|j: int|
                    0 <= j < mid.articles@.len() ==> self.db.articles@[j] == mid.articles@[j],
                forall|j: int|
                    mid.articles@.len() <= j < self.db.articles@.len() ==> {
                        &&& (#[trigger] self.db.articles@[j]).feed_id == feed_id
                        &&& self.db.articles@[j].is_read == false
                        &&& exists|k2: int|
                            0 <= k2 < feed_data.articles@.len() && {
                                let pa = #[trigger] feed_data.articles@[k2];
                                &&& self.db.articles@[j].title == pa.title
                                &&& self.db.articles@[j].url == pa.url
                                &&& self.db.articles@[j].summary == pa.summary
                                &&& self.db.articles@[j].published_at == pa.published_at
                            }
                    },
                (forall|k2: int|
                    0 <= k2 < k ==> has_article_key(
                        self.db.articles@,
                        feed_id,
                        (#[trigger] feed_data.articles@[k2]).url@,
                    )) || self.db.next_article_id == i64::MAX,
            decreases feed_data.articles@.len() - k,
        {
            let ghost pre = self.db;
            let res = self.db.insert_article(feed_id, &feed_data.articles[k]);
            proof {
                let pa = feed_data.articles@[k as int];
                if res is Ok {
                    let a = res->Ok_0;
                    if !has_article_key(pre.articles@, feed_id, pa.url@) {
                        assert(self.db.articles@ == pre.articles@.push(a));
                        assert forall|j: int|
                            mid.articles@.len() <= j < self.db.articles@.len() implies {
                            &&& (#[trigger] self.db.articles@[j]).feed_id == feed_id
                            &&& self.db.articles@[j].is_read == false
                            &&& exists|k2: int|
                                0 <= k2 < feed_data.articles@.len() && {
                                    let pa2 = #[trigger] feed_data.articles@[k2];
                                    &&& self.db.articles@[j].title == pa2.title
                                    &&& self.db.articles@[j].url == pa2.url
                                    &&& self.db.articles@[j].summary == pa2.summary
                                    &&& self.db.articles@[j].published_at == pa2.published_at
                                }
                        } by {
                            if j < pre.articles@.len() {
                                assert(self.db.articles@[j] == pre.articles@[j]);
                                let k2 = choose|k2: int|
                                    0 <= k2 < feed_data.articles@.len() && {
                                        let pa2 = #[trigger] feed_data.articles@[k2];
                                        &&& pre.articles@[j].title == pa2.title
                                        &&& pre.articles@[j].url == pa2.url
                                        &&& pre.articles@[j].summary == pa2.summary
                                        &&& pre.articles@[j].published_at == pa2.published_at
                                    };
                                assert(0 <= k2 < feed_data.articles@.len() && {
                                    let pa2 = feed_data.articles@[k2];
                                    &&& self.db.articles@[j].title == pa2.title
                                    &&& self.db.articles@[j].url == pa2.url
                                    &&& self.db.articles@[j].summary == pa2.summary
                                    &&& self.db.articles@[j].published_at == pa2.published_at
                                });
                            } else {
                                assert(self.db.articles@[j] == a);
                                assert(0 <= (k as int) < feed_data.articles@.len() && {
                                    let pa2 = feed_data.articles@[k as int];
                                    &&& a.title == pa2.title
                                    &&& a.url == pa2.url
                                    &&& a.summary == pa2.summary
                                    &&& a.published_at == pa2.published_at
                                });
                            }
                        }
                    }
                    assert forall|k2: int|
                        0 <= k2 < k + 1 && self.db.next_article_id != i64::MAX implies
                        has_article_key(
                        self.db.articles@,
                        feed_id,
                        (#[trigger] feed_data.articles@[k2]).url@,
                    ) by {
                        if k2 == k as int {
                            if has_article_key(pre.articles@, feed_id, pa.url@) {
                                let q = choose|q: int|
                                    0 <= q < pre.articles@.len()
                                        && (#[trigger] pre.articles@[q]).feed_id == feed_id
                                        && pre.articles@[q].url@ == pa.url@;
                                assert(self.db.articles@[q] == pre.articles@[q]);
                            } else {
                                assert(self.db.articles@.last().feed_id == feed_id
                                    && self.db.articles@.last().url@ == pa.url@);
                            }
                        } else {
                            assert(pre.next_article_id != i64::MAX) by {
                                if has_article_key(pre.articles@, feed_id, pa.url@) {
                                    assert(self.db == pre);
                                } else {
                                    assert(self.db.next_article_id == pre.next_article_id + 1);
                                }
                            }
                            let q = choose|q: int|
                                0 <= q < pre.articles@.len() && (#[trigger] pre.articles@[q]).feed_id
                                    == feed_id && pre.articles@[q].url@
                                    == feed_data.articles@[k2].url@;
                            assert(self.db.articles@[q] == pre.articles@[q]);
                        }
                    }
                } else {
                    assert(self.db == pre);
                    assert(has_feed_id(pre.feeds@, feed_id));
                    assert(self.db.next_article_id == i64::MAX);
                }
            }
            k += 1;
        }
        match self.db.get_feed(feed_id) {
            Some(f) => {
                proof {
                    crate::db::lemma_count_unread_le(self.db.articles@, feed_id);
                    broadcast use vstd::std_specs::vec::axiom_spec_len;

                    assert(vstd::std_specs::vec::spec_vec_len(&self.db.articles)
                        == self.db.articles@.len());
                }
                Ok(f)
            },
            None => {
                proof {
                    assert(has_feed_id(self.db.feeds@, feed_id));
                    assert(false);
                }
                Err(PatinaError::NotFound)
            },
        }
    }

    /// All feeds with their unread counts, ordered by title.
    pub fn get_all_feeds(&self) -> (r: Result<Vec<Feed>, PatinaError>)
        requires
            self.db.wf(),
        ensures
            (match r {
                Ok(v) => {
                    &&& v@.to_multiset() == all_feeds_sel(
                        self.db.feeds@,
                        self.db.articles@,
                    ).to_multiset()
                    &&& feeds_sorted(v@)
                    &&& v@.len() == self.db.feeds@.len()
                },
                Err(_) => false,
            }),
    {
        self.db.get_all_feeds()
    }

    /// Deletes a feed and, transitively, its articles and their topic
    /// associations.
    pub fn delete_feed(&mut self, feed_id: i64) -> (r: Result<(), PatinaError>)
        requires
            old(self).db.wf(),
        ensures
            final(self).db.wf(),
            r is Ok,
            final(self).db.feeds@ == crate::db::feeds_without(old(self).db.feeds@, feed_id),
            final(self).db.articles@ == crate::db::articles_without_feed(
                old(self).db.articles@,
                feed_id,
            ),
            final(self).db.topics@ == crate::db::topics_for_articles(
                old(self).db.topics@,
                final(self).db.articles@,
            ),
            final(self).db.patterns@ == old(self).db.patterns@,
    {
        self.db.delete_feed(feed_id)
    }

    /// The feed's articles, newest first by publication or fetch time.
    pub fn get_articles_for_feed(&self, feed_id: i64) -> (r: Result<Vec<Article>, PatinaError>)
        requires
            self.db.wf(),
        ensures
            (match r {
                Ok(v) => {
                    &&& v@.to_multiset() == articles_sel(
                        self.db.articles@,
                        self.db.feeds@,
                        |a: Article| a.feed_id == feed_id,
                    ).to_multiset()
                    &&& forall|i: int, j: int|
                        0 <= i < j < v@.len() ==> crate::order::coalesce_key(v@[i])
                            >= crate::order::coalesce_key(v@[j])
                },
                Err(_) => false,
            }),
    {
        self.db.get_articles_for_feed(feed_id)
    }

    /// Every unread article, those with a publication time first.
    pub fn get_all_unread_articles(&self) -> (r: Result<Vec<Article>, PatinaError>)
        requires
            self.db.wf(),
        ensures
            (match r {
                Ok(v) => {
                    &&& v@.to_multiset() == articles_sel(
                        self.db.articles@,
                        self.db.feeds@,
                        |a: Article| !a.is_read,
                    ).to_multiset()
                    &&& forall|i: int, j: int|
                        0 <= i < j < v@.len() ==> crate::order::pub_first_key(v@[i])
                            >= crate::order::pub_first_key(v@[j])
                },
                Err(_) => false,
            }),
    {
        self.db.get_all_unread_articles()
    }

    /// The most recent articles across all read states, capped at `limit`.
    pub fn get_recent_articles(&self, limit: i32) -> (r: Result<Vec<Article>, PatinaError>)
        requires
            self.db.wf(),
            0 <= limit,
        ensures
            (match r {
                Ok(v) => {
                    let sel = articles_sel(
                        self.db.articles@,
                        self.db.feeds@,
                        |a: Article| true,
                    );
                    &&& v@.len() == vstd::math::min(limit as int, sel.len() as int)
                    &&& forall|i: int, j: int|
                        0 <= i < j < v@.len() ==> crate::order::pub_first_key(v@[i])
                            >= crate::order::pub_first_key(v@[j])
                    &&& forall|x: Article|
                        #[trigger] v@.to_multiset().count(x) <= sel.to_multiset().count(x)
                },
                Err(_) => false,
            }),
    {
        self.db.get_recent_articles(limit)
    }

    /// Marks an article read, then records its topics and refreshes the
    /// automatic reading patterns from the reading history.  Only the
    /// marked article's read state, its topic associations, and the
    /// automatic patterns can change; a missing id is a no-op.
    pub fn mark_article_read(&mut self, article_id: i64) -> (r: Result<(), PatinaError>)
        requires
            old(self).db.wf(),
        ensures
            final(self).db.wf(),
            r is Ok,
            marked_read(old(self).db.articles@, final(self).db.articles@, article_id),
            final(self).db.feeds@ == old(self).db.feeds@,
            final(self).db.topics@.len() >= old(self).db.topics@.len(),
            forall|j: int|
                0 <= j < old(self).db.topics@.len() ==> {
                    &&& (#[trigger] final(self).db.topics@[j]).article_id == old(
                        self,
                    ).db.topics@[j].article_id
                    &&& final(self).db.topics@[j].topic@ == old(self).db.topics@[j].topic@
                    &&& (final(self).db.topics@[j] != old(self).db.topics@[j] ==> old(
                        self,
                    ).db.topics@[j].article_id == article_id)
                },
            forall|j: int|
                old(self).db.topics@.len() <= j < final(self).db.topics@.len()
                    ==> (#[trigger] final(self).db.topics@[j]).article_id == article_id,
            final(self).db.patterns@.len() >= old(self).db.patterns@.len(),
            forall|j: int|
                0 <= j < old(self).db.patterns@.len() ==> {
                    let po = #[trigger] old(self).db.patterns@[j];
                    let pn = final(self).db.patterns@[j];
                    &&& pn.id == po.id
                    &&& pn.pattern_type == po.pattern_type
                    &&& pn.value == po.value
                    &&& pn.source == po.source
                    &&& (pn.weight_tenths == po.weight_tenths || pn.weight_tenths == bump_weight(
                        po.weight_tenths,
                    ))
                },
            forall|j: int|
                old(self).db.patterns@.len() <= j < final(self).db.patterns@.len() ==> {
                    let pn = #[trigger] final(self).db.patterns@[j];
                    &&& pn.pattern_type@ == "topic"@
                    &&& pn.source@ == "auto"@
                    &&& pn.weight_tenths == 10
                },
            crate::db::has_article_id(old(self).db.articles@, article_id) ==> exists|
                i: int,
                ts: Seq<(String, u64)>,
            |
                {
                    &&& 0 <= i < old(self).db.articles@.len()
                    &&& (#[trigger] old(self).db.articles@[i]).id == article_id
                    &&& #[trigger] crate::topics::topics_post(
                        crate::topics::tokenize_spec(old(self).db.articles@[i].title@),
                        crate::topics::summary_tokens(old(self).db.articles@[i].summary),
                        ts,
                    )
                    &&& forall|k: int|
                        0 <= k < ts.len() ==> crate::db::has_topic_score(
                            final(self).db.topics@,
                            article_id,
                            (#[trigger] ts[k]).0@,
                            ts[k].1,
                        )
                },
            crate::db::has_article_id(old(self).db.articles@, article_id)
                && final(self).db.next_pattern_id != i64::MAX ==> exists|top: Seq<(String, u128)>|
                {
                    &&& #[trigger] crate::db::top_topics_post(
                        final(self).db.topics@,
                        final(self).db.articles@,
                        top,
                        20,
                    )
                    &&& forall|k: int|
                        0 <= k < top.len() && (#[trigger] top[k]).1 >= 2000000
                            ==> has_pattern_key(final(self).db.patterns@, "topic"@, top[k].0@)
                },
    {
        match self.db.mark_article_read(article_id) {
            Ok(_) => {},
            Err(_) => {},
        }
        let ghost marked = self.db;
        let found = self.db.get_article(article_id);
        match found {
            Some(article) => {
                proof {
                    // the looked-up article carries the stored title and
                    // summary, which marking read did not touch
                    let i = choose|i: int|
                        0 <= i < marked.articles@.len() && (#[trigger] marked.articles@[i]).id
                            == article_id;
                    assert(old(self).db.articles@[i].id == article_id) by {
                        if old(self).db.articles@[i].id != article_id {
                            assert(marked.articles@[i] == old(self).db.articles@[i]);
                        }
                    }
                    assert(article.title == old(self).db.articles@[i].title);
                    assert(article.summary == old(self).db.articles@[i].summary);
                    assert(article.id == article_id);
                    assert(crate::db::has_article_id(marked.articles@, article.id));
                }
                self.serendipity_record_reading(&article);
                proof {
                    let i = choose|i: int|
                        0 <= i < marked.articles@.len() && (#[trigger] marked.articles@[i]).id
                            == article_id;
                    let ts = choose|ts: Seq<(String, u64)>|
                        {
                            &&& #[trigger] crate::topics::topics_post(
                                crate::topics::tokenize_spec(article.title@),
                                crate::topics::summary_tokens(article.summary),
                                ts,
                            )
                            &&& forall|k: int|
                                0 <= k < ts.len() ==> crate::db::has_topic_score(
                                    self.db.topics@,
                                    article.id,
                                    (#[trigger] ts[k]).0@,
                                    ts[k].1,
                                )
                        };
                    assert(crate::topics::topics_post(
                        crate::topics::tokenize_spec(old(self).db.articles@[i].title@),
                        crate::topics::summary_tokens(old(self).db.articles@[i].summary),
                        ts,
                    ));
                }
            },
            None => {
                proof {
                    assert forall|i: int|
                        0 <= i < old(self).db.articles@.len() implies (#[trigger] old(
                        self,
                    ).db.articles@[i]).id != article_id by {
                        if old(self).db.articles@[i].id == article_id {
                            assert(marked.articles@[i].id == article_id);
                        }
                    }
                }
            },
        }
        Ok(())
    }

    /// Extracts and stores the topics of a read article, then promotes
    /// well-read topics into automatic patterns.
    fn serendipity_record_reading(&mut self, article: &Article)
        requires
            old(self).db.wf(),
        ensures
            final(self).db.wf(),
            final(self).db.feeds@ == old(self).db.feeds@,
            final(self).db.articles@ == old(self).db.articles@,
            crate::db::has_article_id(old(self).db.articles@, article.id) ==> exists|
                ts: Seq<(String, u64)>,
            |
                {
                    &&& #[trigger] crate::topics::topics_post(
                        crate::topics::tokenize_spec(article.title@),
                        crate::topics::summary_tokens(article.summary),
                        ts,
                    )
                    &&& forall|k: int|
                        0 <= k < ts.len() ==> crate::db::has_topic_score(
                            final(self).db.topics@,
                            article.id,
                            (#[trigger] ts[k]).0@,
                            ts[k].1,
                        )
                },
            final(self).db.next_pattern_id != i64::MAX ==> exists|top: Seq<(String, u128)>|
                {
                    &&& #[trigger] crate::db::top_topics_post(
                        final(self).db.topics@,
                        final(self).db.articles@,
                        top,
                        20,
                    )
                    &&& forall|k: int|
                        0 <= k < top.len() && (#[trigger] top[k]).1 >= 2000000
                            ==> has_pattern_key(final(self).db.patterns@, "topic"@, top[k].0@)
                },
            final(self).db.topics@.len() >= old(self).db.topics@.len(),
            forall|j: int|
                0 <= j < old(self).db.topics@.len() ==> {
                    &&& (#[trigger] final(self).db.topics@[j]).article_id == old(
                        self,
                    ).db.topics@[j].article_id
                    &&& final(self).db.topics@[j].topic@ == old(self).db.topics@[j].topic@
                    &&& (final(self).db.topics@[j] != old(self).db.topics@[j] ==> old(
                        self,
                    ).db.topics@[j].article_id == article.id)
                },
            forall|j: int|
                old(self).db.topics@.len() <= j < final(self).db.topics@.len()
                    ==> (#[trigger] final(self).db.topics@[j]).article_id == article.id,
            final(self).db.patterns@.len() >= old(self).db.patterns@.len(),
            forall|j: int|
                0 <= j < old(self).db.patterns@.len() ==> {
                    let po = #[trigger] old(self).db.patterns@[j];
                    let pn = final(self).db.patterns@[j];
                    &&& pn.id == po.id
                    &&& pn.pattern_type == po.pattern_type
                    &&& pn.value == po.value
                    &&& pn.source == po.source
                    &&& (pn.weight_tenths == po.weight_tenths || pn.weight_tenths == bump_weight(
                        po.weight_tenths,
                    ))
                },
            forall|j: int|
                old(self).db.patterns@.len() <= j < final(self).db.patterns@.len() ==> {
                    let pn = #[trigger] final(self).db.patterns@[j];
                    &&& pn.pattern_type@ == "topic"@
                    &&& pn.source@ == "auto"@
                    &&& pn.weight_tenths == 10
                },
    {
        let ghost tt = crate::topics::tokenize_spec(article.title@);
        let ghost st = crate::topics::summary_tokens(article.summary);
        let summary_ref = match &article.summary {
            Some(s) => Some(s.as_str()),
            None => None,
        };
        let topics = match crate::topics::extract_topics(article.title.as_str(), summary_ref) {
            Ok(t) => t,
            Err(_) => {
                return ;
            },
        };
        proof {
            assert(crate::topics::topics_post(tt, st, topics@));
        }
        let ghost base = self.db;
        let mut k: usize = 0;
        while k < topics.len()
            invariant
                self.db.wf(),
                base.wf(),
                base == old(self).db,
                crate::topics::topics_post(tt, st, topics@),
                k <= topics@.len(),
                self.db.feeds@ == base.feeds@,
                self.db.articles@ == base.articles@,
                self.db.patterns@ == base.patterns@,
                self.db.next_feed_id == base.next_feed_id,
                self.db.next_article_id == base.next_article_id,
                self.db.next_pattern_id == base.next_pattern_id,
                self.db.topics@.len() >= base.topics@.len(),
                forall|j: int|
                    0 <= j < base.topics@.len() ==> {
                        &&& (#[trigger] self.db.topics@[j]).article_id
                            == base.topics@[j].article_id
                        &&& self.db.topics@[j].topic@ == base.topics@[j].topic@
                        &&& (self.db.topics@[j] != base.topics@[j] ==> base.topics@[j].article_id
                            == article.id)
                    },
                forall|j: int|
                    base.topics@.len() <= j < self.db.topics@.len()
                        ==> (#[trigger] self.db.topics@[j]).article_id == article.id,
                crate::db::has_article_id(base.articles@, article.id) ==> forall|k2: int|
                    0 <= k2 < k ==> crate::db::has_topic_score(
                        self.db.topics@,
                        article.id,
                        (#[trigger] topics@[k2]).0@,
                        topics@[k2].1,
                    ),
            decreases topics@.len() - k,
        {
            let ghost pre = self.db;
            let res = self.db.record_article_topic(article.id, topics[k].0.as_str(), topics[k].1);
            proof {
                if res is Ok {
                    if crate::db::has_topic_key(pre.topics@, article.id, topics@[k as int].0@) {
                        assert forall|j: int|
                            0 <= j < base.topics@.len() implies {
                            &&& (#[trigger] self.db.topics@[j]).article_id
                                == base.topics@[j].article_id
                            &&& self.db.topics@[j].topic@ == base.topics@[j].topic@
                            &&& (self.db.topics@[j] != base.topics@[j]
                                ==> base.topics@[j].article_id == article.id)
                        } by {
                            if pre.topics@[j].article_id == article.id && pre.topics@[j].topic@
                                == topics@[k as int].0@ {
                                assert(self.db.topics@[j].article_id == article.id);
                            } else {
                                assert(self.db.topics@[j] == pre.topics@[j]);
                            }
                        }
                        assert forall|j: int|
                            base.topics@.len() <= j < self.db.topics@.len() implies (
                        #[trigger] self.db.topics@[j]).article_id == article.id by {
                            if pre.topics@[j].article_id == article.id && pre.topics@[j].topic@
                                == topics@[k as int].0@ {
                            } else {
                                assert(self.db.topics@[j] == pre.topics@[j]);
                            }
                        }
                    } else {
                        assert(self.db.topics@.len() == pre.topics@.len() + 1);
                        assert(forall|j: int|
                            0 <= j < pre.topics@.len() ==> #[trigger] self.db.topics@[j]
                                == pre.topics@[j]);
                        assert(self.db.topics@.last().article_id == article.id);
                    }
                } else {
                    assert(self.db == pre);
                }
                if crate::db::has_article_id(base.articles@, article.id) {
                    assert(res is Ok);
                    assert forall|k2: int|
                        0 <= k2 < k + 1 implies crate::db::has_topic_score(
                        self.db.topics@,
                        article.id,
                        (#[trigger] topics@[k2]).0@,
                        topics@[k2].1,
                    ) by {
                        let w = topics@[k as int].0@;
                        if k2 == k as int {
                            if crate::db::has_topic_key(pre.topics@, article.id, w) {
                                let j = choose|j: int|
                                    0 <= j < pre.topics@.len() && (#[trigger] pre.topics@[j]).article_id
                                        == article.id && pre.topics@[j].topic@ == w;
                                assert(self.db.topics@[j].article_id == article.id
                                    && self.db.topics@[j].topic@ == w && self.db.topics@[j].score
                                    == topics@[k as int].1);
                            } else {
                                assert(self.db.topics@.last().article_id == article.id
                                    && self.db.topics@.last().topic@ == w
                                    && self.db.topics@.last().score == topics@[k as int].1);
                            }
                        } else {
                            let i = choose|i: int|
                                0 <= i < pre.topics@.len() && (#[trigger] pre.topics@[i]).article_id
                                    == article.id && pre.topics@[i].topic@ == topics@[k2].0@
                                    && pre.topics@[i].score == topics@[k2].1;
                            if crate::db::has_topic_key(pre.topics@, article.id, w) {
                                if pre.topics@[i].article_id == article.id && pre.topics@[i].topic@
                                    == w {
                                    assert(topics@[k2].0@ != topics@[k as int].0@);
                                    assert(false);
                                } else {
                                    assert(self.db.topics@[i] == pre.topics@[i]);
                                }
                            } else {
                                assert(self.db.topics@[i] == pre.topics@[i]);
                            }
                        }
                    }
                }
            }
            k += 1;
        }
        let ghost recorded = self.db;
        let _ = crate::topics::update_auto_patterns(&mut self.db);
        proof {
            assert(self.db.topics@ == recorded.topics@);
            if crate::db::has_article_id(old(self).db.articles@, article.id) {
                assert forall|k2: int|
                    0 <= k2 < topics@.len() implies crate::db::has_topic_score(
                    self.db.topics@,
                    article.id,
                    (#[trigger] topics@[k2]).0@,
                    topics@[k2].1,
                ) by {
                    let i = choose|i: int|
                        0 <= i < recorded.topics@.len() && (#[trigger] recorded.topics@[i]).article_id
                            == article.id && recorded.topics@[i].topic@ == topics@[k2].0@
                            && recorded.topics@[i].score == topics@[k2].1;
                    assert(self.db.topics@[i] == recorded.topics@[i]);
                }
                assert(crate::topics::topics_post(
                    crate::topics::tokenize_spec(article.title@),
                    crate::topics::summary_tokens(article.summary),
                    topics@,
                ));
            }
        }
    }

    /// Marks an article unread and clears its read time; a missing id is a
    /// no-op.
    pub fn mark_article_unread(&mut self, article_id: i64) -> (r: Result<(), PatinaError>)
        requires
            old(self).db.wf(),
        ensures
            final(self).db.wf(),
            r is Ok,
            marked_unread(old(self).db.articles@, final(self).db.articles@, article_id),
            final(self).db.feeds@ == old(self).db.feeds@,
            final(self).db.patterns@ == old(self).db.patterns@,
            final(self).db.topics@ == old(self).db.topics@,
    {
        self.db.mark_article_unread(article_id)
    }

    /// Up to `limit` unread articles chosen by the surfacer.
    pub fn get_serendipity_articles(&self, limit: i32) -> (r: Result<Vec<Article>, PatinaError>)
        requires
            self.db.wf(),
            0 <= limit <= i32::MAX / 2,
        ensures
            (match r {
                Ok(v) => {
                    let usel = articles_sel(
                        self.db.articles@,
                        self.db.feeds@,
                        |a: Article| !a.is_read,
                    );
                    &&& v@.len() <= limit
                    &&& forall|x: Article|
                        #[trigger] v@.to_multiset().count(x) <= usel.to_multiset().count(x)
                    &&& forall|k: int|
                        0 <= k < v@.len() ==> !crate::surfacer::excluded_match(
                            self.db.patterns@,
                            #[trigger] v@[k],
                        )
                    &&& (crate::surfacer::has_inclusion(self.db.patterns@) ==> forall|
                        i: int,
                        j: int,
                    |
                        0 <= i < j < v@.len() ==> crate::surfacer::incl_score(
                            self.db.topics@,
                            self.db.patterns@,
                            v@[i].id,
                        ) >= crate::surfacer::incl_score(
                            self.db.topics@,
                            self.db.patterns@,
                            v@[j].id,
                        ))
                    &&& (!crate::surfacer::has_exclusion(self.db.patterns@) ==> v@.len()
                        == vstd::math::min(limit as int, usel.len() as int))
                    &&& v@.len() >= vstd::math::min(
                        limit as int,
                        vstd::math::min(2 * limit as int, usel.len() as int)
                            - crate::surfacer::excluded_count(usel, self.db.patterns@),
                    )
                },
                Err(_) => false,
            }),
    {
        crate::surfacer::get_serendipity_articles(&self.db, limit)
    }

    /// All reading patterns, heaviest first.
    pub fn get_reading_patterns(&self) -> (r: Result<Vec<ReadingPattern>, PatinaError>)
        requires
            self.db.wf(),
        ensures
            (match r {
                Ok(v) => {
                    &&& v@.to_multiset() == self.db.patterns@.to_multiset()
                    &&& forall|i: int, j: int|
                        0 <= i < j < v@.len() ==> (#[trigger] v@[i]).weight_tenths
                            >= (#[trigger] v@[j]).weight_tenths
                },
                Err(_) => false,
            }),
    {
        self.db.get_reading_patterns()
    }

    /// Adds a manual reading pattern, or strengthens an existing one with
    /// the same kind and value.
    pub fn add_reading_pattern(&mut self, pattern_type: &str, value: &str) -> (r: Result<
        ReadingPattern,
        PatinaError,
    >)
        requires
            old(self).db.wf(),
        ensures
            final(self).db.wf(),
            final(self).db.feeds@ == old(self).db.feeds@,
            final(self).db.articles@ == old(self).db.articles@,
            final(self).db.topics@ == old(self).db.topics@,
            (match r {
                Ok(a) => {
                    &&& if has_pattern_key(old(self).db.patterns@, pattern_type@, value@) {
                        &&& final(self).db.patterns@.len() == old(self).db.patterns@.len()
                        &&& forall|j: int|
                            0 <= j < old(self).db.patterns@.len() && !((#[trigger] old(
                                self,
                            ).db.patterns@[j]).pattern_type@ == pattern_type@ && old(
                                self,
                            ).db.patterns@[j].value@ == value@) ==> final(self).db.patterns@[j]
                                == old(self).db.patterns@[j]
                        &&& forall|j: int|
                            0 <= j < old(self).db.patterns@.len() && ((#[trigger] old(
                                self,
                            ).db.patterns@[j]).pattern_type@ == pattern_type@ && old(
                                self,
                            ).db.patterns@[j].value@ == value@) ==> final(self).db.patterns@[j]
                                == (ReadingPattern {
                                weight_tenths: bump_weight(
                                    old(self).db.patterns@[j].weight_tenths,
                                ),
                                ..old(self).db.patterns@[j]
                            })
                    } else {
                        &&& a.pattern_type@ == pattern_type@
                        &&& a.value@ == value@
                        &&& a.source@ == "manual"@
                        &&& a.weight_tenths == 10
                        &&& final(self).db.patterns@ == old(self).db.patterns@.push(a)
                    }
                },
                Err(_) => {
                    &&& *final(self) == *old(self)
                    &&& !has_pattern_key(old(self).db.patterns@, pattern_type@, value@)
                    &&& old(self).db.next_pattern_id == i64::MAX
                },
            }),
    {
        self.db.add_reading_pattern(pattern_type, value, "manual")
    }

    /// Deletes the reading pattern with this id; a missing id is a no-op.
    pub fn delete_reading_pattern(&mut self, pattern_id: i64) -> (r: Result<(), PatinaError>)
        requires
            old(self).db.wf(),
        ensures
            final(self).db.wf(),
            r is Ok,
            final(self).db.patterns@ == patterns_without(old(self).db.patterns@, pattern_id),
            final(self).db.feeds@ == old(self).db.feeds@,
            final(self).db.articles@ == old(self).db.articles@,
            final(self).db.topics@ == old(self).db.topics@,
    {
        self.db.delete_reading_pattern(pattern_id)
    }

    /// Clears all reading patterns.
    pub fn reset_reading_patterns(&mut self) -> (r: Result<(), PatinaError>)
        requires
            old(self).db.wf(),
        ensures
            final(self).db.wf(),
            r is Ok,
            final(self).db.patterns@.len() == 0,
            final(self).db.feeds@ == old(self).db.feeds@,
            final(self).db.articles@ == old(self).db.articles@,
            final(self).db.topics@ == old(self).db.topics@,
    {
        self.db.reset_reading_patterns()
    }
}

} // verus!
