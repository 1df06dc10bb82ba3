use vstd::prelude::*;

verus! {

/// A copy of an optional string, equal to what it copies.
pub fn clone_opt_string(o: &Option<String>) -> (r: Option<String>)
    ensures
        r == *o,
{
    match o {
        Some(s) => Some(s.clone()),
        None => None,
    }
}

/// A feed subscription as stored: everything but the derived unread count.
#[derive(Debug)]
pub struct FeedRow {
    pub id: i64,
    pub title: String,
    pub url: String,
    pub site_url: Option<String>,
    pub last_fetched_at: Option<i64>,
    pub created_at: i64,
}

impl Clone for FeedRow {
    fn clone(&self) -> (r: Self)
        ensures
            r == *self,
    {
        FeedRow {
            id: self.id,
            title: self.title.clone(),
            url: self.url.clone(),
            site_url: clone_opt_string(&self.site_url),
            last_fetched_at: self.last_fetched_at,
            created_at: self.created_at,
        }
    }
}

/// A feed subscription as returned to callers, with its unread-article
/// count computed from current article state (never stored).
#[derive(Debug)]
pub struct Feed {
    pub id: i64,
    pub title: String,
    pub url: String,
    pub site_url: Option<String>,
    pub last_fetched_at: Option<i64>,
    pub created_at: i64,
    pub unread_count: usize,
}

impl Clone for Feed {
    fn clone(&self) -> (r: Self)
        ensures
            r == *self,
    {
        Feed {
            id: self.id,
            title: self.title.clone(),
            url: self.url.clone(),
            site_url: clone_opt_string(&self.site_url),
            last_fetched_at: self.last_fetched_at,
            created_at: self.created_at,
            unread_count: self.unread_count,
        }
    }
}

/// An article belonging to exactly one feed.  `feed_title` is only filled
/// in on rows returned by lookups; stored rows keep it `None`.
#[derive(Debug)]
pub struct Article {
    pub id: i64,
    pub feed_id: i64,
    pub title: String,
    pub url: String,
    pub summary: Option<String>,
    pub published_at: Option<i64>,
    pub fetched_at: i64,
    pub is_read: bool,
    pub read_at: Option<i64>,
    pub feed_title: Option<String>,
}

impl Clone for Article {
    fn clone(&self) -> (r: Self)
        ensures
            r == *self,
    {
        Article {
            id: self.id,
            feed_id: self.feed_id,
            title: self.title.clone(),
            url: self.url.clone(),
            summary: clone_opt_string(&self.summary),
            published_at: self.published_at,
            fetched_at: self.fetched_at,
            is_read: self.is_read,
            read_at: self.read_at,
            feed_title: clone_opt_string(&self.feed_title),
        }
    }
}

/// A reading pattern used for ranking.  The weight is kept in tenths, so
/// the default weight of one is 10 and each repeated observation adds 1.
#[derive(Debug)]
pub struct ReadingPattern {
    pub id: i64,
    pub pattern_type: String,
    pub value: String,
    pub source: String,
    pub weight_tenths: u64,
    pub created_at: i64,
}

impl Clone for ReadingPattern {
    fn clone(&self) -> (r: Self)
        ensures
            r == *self,
    {
        ReadingPattern {
            id: self.id,
            pattern_type: self.pattern_type.clone(),
            value: self.value.clone(),
            source: self.source.clone(),
            weight_tenths: self.weight_tenths,
            created_at: self.created_at,
        }
    }
}

/// An (article, topic) relevance association.  The score is kept in
/// millionths, so a normalized score of one is 1_000_000.
#[derive(Debug)]
pub struct TopicRow {
    pub article_id: i64,
    pub topic: String,
    pub score: u64,
}

impl Clone for TopicRow {
    fn clone(&self) -> (r: Self)
        ensures
            r == *self,
    {
        TopicRow { article_id: self.article_id, topic: self.topic.clone(), score: self.score }
    }
}

/// A feed discovered from a website.
#[derive(Debug)]
pub struct DiscoveredFeed {
    pub url: String,
    pub title: Option<String>,
}

impl Clone for DiscoveredFeed {
    fn clone(&self) -> (r: Self)
        ensures
            r == *self,
    {
        DiscoveredFeed { url: self.url.clone(), title: clone_opt_string(&self.title) }
    }
}

/// Result of importing an OPML file.
#[derive(Debug)]
pub struct OpmlImportResult {
    pub total_feeds: i32,
    pub imported_feeds: i32,
    pub failed_feeds: i32,
    pub errors: Vec<String>,
}

/// Parsed feed data, handed in by the fetch layer.
#[derive(Debug)]
pub struct ParsedFeed {
    pub title: String,
    pub url: String,
    pub site_url: Option<String>,
    pub articles: Vec<ParsedArticle>,
}

/// Parsed article data, handed in by the fetch layer.
#[derive(Debug)]
pub struct ParsedArticle {
    pub title: String,
    pub url: String,
    pub summary: Option<String>,
    pub published_at: Option<i64>,
}

impl Clone for ParsedArticle {
    fn clone(&self) -> (r: Self)
        ensures
            r == *self,
    {
        ParsedArticle {
            title: self.title.clone(),
            url: self.url.clone(),
            summary: clone_opt_string(&self.summary),
            published_at: self.published_at,
        }
    }
}

/// An OPML feed entry.
#[derive(Debug)]
pub struct OpmlFeed {
    pub url: String,
    pub title: Option<String>,
}

impl Clone for OpmlFeed {
    fn clone(&self) -> (r: Self)
        ensures
            r == *self,
    {
        OpmlFeed { url: self.url.clone(), title: clone_opt_string(&self.title) }
    }
}

} // verus!
