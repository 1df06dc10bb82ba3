use patina_core::api::PatinaCore;
use patina_core::db::Database;
use patina_core::models::{ParsedArticle, ParsedFeed};

fn sample_feed(url: &str) -> ParsedFeed {
    ParsedFeed {
        title: "Sample".to_string(),
        url: url.to_string(),
        site_url: Some("https://example.com".to_string()),
        articles: Vec::new(),
    }
}

fn sample_article(title: &str, url: &str) -> ParsedArticle {
    ParsedArticle {
        title: title.to_string(),
        url: url.to_string(),
        summary: Some(format!("summary of {}", title)),
        published_at: Some(1_700_000_000),
    }
}

#[test]
fn test_create_database() {
    let core = PatinaCore::new();
    let feeds = core.get_all_feeds().unwrap();
    assert!(feeds.is_empty());
}

#[test]
fn test_insert_article_idempotent() {
    // inserting the same (feed, url) article twice yields exactly one row
    let mut db = Database::new();
    let feed = db.insert_feed(&sample_feed("https://example.com/a.xml")).unwrap();
    let first = db
        .insert_article(feed.id, &sample_article("One", "https://example.com/one"))
        .unwrap();
    let second = db
        .insert_article(feed.id, &sample_article("One again", "https://example.com/one"))
        .unwrap();
    assert_eq!(second.id, first.id);
    assert_eq!(second.title, "One");
    let articles = db.get_articles_for_feed(feed.id).unwrap();
    assert_eq!(articles.len(), 1);
}

#[test]
fn test_feed_url_uniqueness() {
    // a second feed with an identical url is rejected
    let mut db = Database::new();
    db.insert_feed(&sample_feed("https://example.com/a.xml")).unwrap();
    let err = db.insert_feed(&sample_feed("https://example.com/a.xml")).unwrap_err();
    match err {
        patina_core::PatinaError::FeedAlreadyExists(title) => assert_eq!(title, "Sample"),
        other => panic!("expected a duplicate-feed error, got {:?}", other),
    }
    assert_eq!(db.get_all_feeds().unwrap().len(), 1);
}

#[test]
fn test_unread_count_tracks_read_state() {
    let mut db = Database::new();
    let feed = db.insert_feed(&sample_feed("https://example.com/a.xml")).unwrap();
    let a1 = db
        .insert_article(feed.id, &sample_article("One", "https://example.com/one"))
        .unwrap();
    db.insert_article(feed.id, &sample_article("Two", "https://example.com/two"))
        .unwrap();
    assert_eq!(db.get_feed(feed.id).unwrap().unread_count, 2);
    db.mark_article_read(a1.id).unwrap();
    assert_eq!(db.get_feed(feed.id).unwrap().unread_count, 1);
    db.mark_article_unread(a1.id).unwrap();
    assert_eq!(db.get_feed(feed.id).unwrap().unread_count, 2);
}

#[test]
fn test_read_unread_round_trip() {
    let mut db = Database::new();
    let feed = db.insert_feed(&sample_feed("https://example.com/a.xml")).unwrap();
    let a = db
        .insert_article(feed.id, &sample_article("One", "https://example.com/one"))
        .unwrap();
    db.mark_article_read(a.id).unwrap();
    let read = db.get_article(a.id).unwrap();
    assert!(read.is_read);
    assert!(read.read_at.is_some());
    db.mark_article_unread(a.id).unwrap();
    let restored = db.get_article(a.id).unwrap();
    assert!(!restored.is_read);
    assert!(restored.read_at.is_none());
    assert_eq!(restored.title, a.title);
    assert_eq!(restored.fetched_at, a.fetched_at);
}

#[test]
fn test_cascading_delete() {
    let mut db = Database::new();
    let feed = db.insert_feed(&sample_feed("https://example.com/a.xml")).unwrap();
    let kept = db.insert_feed(&sample_feed("https://example.com/b.xml")).unwrap();
    let a = db
        .insert_article(feed.id, &sample_article("One", "https://example.com/one"))
        .unwrap();
    let b = db
        .insert_article(kept.id, &sample_article("Two", "https://example.com/two"))
        .unwrap();
    db.record_article_topic(a.id, "rust", 500_000).unwrap();
    db.record_article_topic(b.id, "swift", 500_000).unwrap();
    db.delete_feed(feed.id).unwrap();
    assert!(db.get_feed(feed.id).is_none());
    assert!(db.get_article(a.id).is_none());
    assert_eq!(db.get_articles_for_feed(feed.id).unwrap().len(), 0);
    // the association of the deleted feed's article went with it, and the
    // other feed kept everything
    db.mark_article_read(b.id).unwrap();
    let tops = db.get_top_read_topics(10).unwrap();
    assert!(tops.iter().all(|(t, _)| t != "rust"));
    assert!(tops.iter().any(|(t, _)| t == "swift"));
}

#[test]
fn test_pattern_weight_accumulation() {
    let mut db = Database::new();
    let first = db.add_reading_pattern("topic", "rust", "manual").unwrap();
    assert_eq!(first.weight_tenths, 10);
    let second = db.add_reading_pattern("topic", "rust", "manual").unwrap();
    assert_eq!(second.id, first.id);
    assert_eq!(second.weight_tenths, 11);
    let patterns = db.get_reading_patterns().unwrap();
    assert_eq!(patterns.len(), 1);
    assert_eq!(patterns[0].weight_tenths, 11);
}

#[test]
fn test_surfacer_exclusion() {
    let mut core = PatinaCore::new();
    let feed = core
        .db
        .insert_feed(&sample_feed("https://example.com/a.xml"))
        .unwrap();
    core.db
        .insert_article(feed.id, &sample_article("All about Cats", "https://example.com/cats"))
        .unwrap();
    core.db
        .insert_article(feed.id, &sample_article("Rust news", "https://example.com/rust"))
        .unwrap();
    core.db
        .insert_article(
            feed.id,
            &ParsedArticle {
                title: "Quiet title".to_string(),
                url: "https://example.com/sneaky".to_string(),
                summary: Some("hidden CATS content".to_string()),
                published_at: None,
            },
        )
        .unwrap();
    core.add_reading_pattern("excluded", "cats").unwrap();
    let picked = core.get_serendipity_articles(10).unwrap();
    assert!(!picked.is_empty());
    for article in &picked {
        assert!(!article.title.to_lowercase().contains("cats"));
        if let Some(summary) = &article.summary {
            assert!(!summary.to_lowercase().contains("cats"));
        }
    }
}

#[test]
fn test_surfacer_fallback_returns_limit() {
    // with no patterns at all and more unread articles than the cap,
    // exactly the cap is returned
    let mut core = PatinaCore::new();
    let feed = core
        .db
        .insert_feed(&sample_feed("https://example.com/a.xml"))
        .unwrap();
    for i in 0..5 {
        core.db
            .insert_article(
                feed.id,
                &sample_article(&format!("Article {}", i), &format!("https://example.com/{}", i)),
            )
            .unwrap();
    }
    let picked = core.get_serendipity_articles(3).unwrap();
    assert_eq!(picked.len(), 3);
}

#[test]
fn test_serendipity() {
    let core = PatinaCore::new();
    let articles = core.get_serendipity_articles(10).unwrap();
    assert!(articles.is_empty());
}

#[test]
fn test_reading_patterns() {
    let mut core = PatinaCore::new();

    let pattern = core.add_reading_pattern("topic", "rust").unwrap();
    assert_eq!(pattern.pattern_type, "topic");
    assert_eq!(pattern.value, "rust");

    let patterns = core.get_reading_patterns().unwrap();
    assert_eq!(patterns.len(), 1);

    core.delete_reading_pattern(pattern.id).unwrap();
    let patterns = core.get_reading_patterns().unwrap();
    assert!(patterns.is_empty());

    core.add_reading_pattern("topic", "swift").unwrap();
    core.add_reading_pattern("keyword", "apple").unwrap();
    core.reset_reading_patterns().unwrap();
    let patterns = core.get_reading_patterns().unwrap();
    assert!(patterns.is_empty());
}

#[test]
fn test_add_feed_prepare_rejects_bad_url() {
    let core = PatinaCore::new();
    let err = core.add_feed_prepare("not a url at all").unwrap_err();
    match err {
        patina_core::PatinaError::InvalidUrl(_) => {}
        other => panic!("expected an invalid-url error, got {:?}", other),
    }
    // a parsable address comes back in canonical form
    let normalized = core.add_feed_prepare("https://example.com").unwrap();
    assert_eq!(normalized, "https://example.com/");
}

#[test]
fn test_add_feed_commit_and_refresh() {
    let mut core = PatinaCore::new();
    let mut data = sample_feed("https://example.com/a.xml");
    data.articles.push(sample_article("One", "https://example.com/one"));
    data.articles.push(sample_article("Two", "https://example.com/two"));
    let feed = core.add_feed_commit(&data).unwrap();
    assert_eq!(feed.unread_count, 2);
    // a refresh with one old and one new article adds only the new one
    let mut newer = sample_feed("https://example.com/a.xml");
    newer.title = "Renamed".to_string();
    newer.articles.push(sample_article("Two", "https://example.com/two"));
    newer.articles.push(sample_article("Three", "https://example.com/three"));
    let refreshed = core.refresh_feed_commit(feed.id, &newer).unwrap();
    assert_eq!(refreshed.title, "Renamed");
    assert_eq!(refreshed.unread_count, 3);
    // refreshing a vanished feed reports not-found
    let err = core.refresh_feed_commit(feed.id + 1, &newer).unwrap_err();
    match err {
        patina_core::PatinaError::NotFound => {}
        other => panic!("expected not-found, got {:?}", other),
    }
}

#[test]
fn test_insert_article_requires_feed() {
    let mut db = Database::new();
    let err = db
        .insert_article(42, &sample_article("One", "https://example.com/one"))
        .unwrap_err();
    match err {
        patina_core::PatinaError::DatabaseError(_) => {}
        other => panic!("expected a storage error, got {:?}", other),
    }
}

#[test]
fn test_feeds_sorted_case_insensitively() {
    let mut db = Database::new();
    let mut f1 = sample_feed("https://example.com/a.xml");
    f1.title = "zebra".to_string();
    let mut f2 = sample_feed("https://example.com/b.xml");
    f2.title = "Apple".to_string();
    let mut f3 = sample_feed("https://example.com/c.xml");
    f3.title = "mango".to_string();
    db.insert_feed(&f1).unwrap();
    db.insert_feed(&f2).unwrap();
    db.insert_feed(&f3).unwrap();
    let feeds = db.get_all_feeds().unwrap();
    let titles: Vec<&str> = feeds.iter().map(|f| f.title.as_str()).collect();
    assert_eq!(titles, vec!["Apple", "mango", "zebra"]);
}

#[test]
fn test_reading_promotes_auto_patterns() {
    let mut core = PatinaCore::new();
    let feed = core
        .db
        .insert_feed(&sample_feed("https://example.com/a.xml"))
        .unwrap();
    let a = core
        .db
        .insert_article(
            feed.id,
            &ParsedArticle {
                title: "serendipity".to_string(),
                url: "https://example.com/one".to_string(),
                summary: None,
                published_at: None,
            },
        )
        .unwrap();
    let b = core
        .db
        .insert_article(
            feed.id,
            &ParsedArticle {
                title: "serendipity".to_string(),
                url: "https://example.com/two".to_string(),
                summary: None,
                published_at: None,
            },
        )
        .unwrap();
    // each read records the topic with the full share of its counts; two
    // reads push the aggregate to the promotion threshold
    core.mark_article_read(a.id).unwrap();
    let tops = core.db.get_top_read_topics(10).unwrap();
    assert_eq!(tops.len(), 1);
    assert_eq!(tops[0].0, "serendipity");
    assert_eq!(tops[0].1, 1_000_000);
    core.mark_article_read(b.id).unwrap();
    let patterns = core.get_reading_patterns().unwrap();
    assert!(patterns
        .iter()
        .any(|p| p.pattern_type == "topic" && p.value == "serendipity" && p.source == "auto"));
}

#[test]
fn test_recent_articles_capped_and_ordered() {
    let mut db = Database::new();
    let feed = db.insert_feed(&sample_feed("https://example.com/a.xml")).unwrap();
    for i in 0..4 {
        db.insert_article(
            feed.id,
            &ParsedArticle {
                title: format!("Article {}", i),
                url: format!("https://example.com/{}", i),
                summary: None,
                published_at: Some(1_700_000_000 + i),
            },
        )
        .unwrap();
    }
    let recent = db.get_recent_articles(2).unwrap();
    assert_eq!(recent.len(), 2);
    assert_eq!(recent[0].title, "Article 3");
    assert_eq!(recent[1].title, "Article 2");
}

#[test]
fn test_surfacer_ranks_matching_topics_first() {
    let mut core = PatinaCore::new();
    let feed = core
        .db
        .insert_feed(&sample_feed("https://example.com/a.xml"))
        .unwrap();
    let plain = core
        .db
        .insert_article(feed.id, &sample_article("Plain", "https://example.com/plain"))
        .unwrap();
    let hot = core
        .db
        .insert_article(feed.id, &sample_article("Hot", "https://example.com/hot"))
        .unwrap();
    core.db.record_article_topic(hot.id, "rust", 900_000).unwrap();
    core.db.record_article_topic(plain.id, "rust", 100_000).unwrap();
    core.add_reading_pattern("topic", "rust").unwrap();
    let picked = core.get_serendipity_articles(2).unwrap();
    assert_eq!(picked.len(), 2);
    assert_eq!(picked[0].id, hot.id);
    assert_eq!(picked[1].id, plain.id);
}

#[test]
fn test_unread_articles_publication_first() {
    let mut db = Database::new();
    let feed = db.insert_feed(&sample_feed("https://example.com/a.xml")).unwrap();
    db.insert_article(
        feed.id,
        &ParsedArticle {
            title: "Undated".to_string(),
            url: "https://example.com/undated".to_string(),
            summary: None,
            published_at: None,
        },
    )
    .unwrap();
    db.insert_article(
        feed.id,
        &ParsedArticle {
            title: "Old but dated".to_string(),
            url: "https://example.com/dated".to_string(),
            summary: None,
            published_at: Some(100),
        },
    )
    .unwrap();
    let unread = db.get_all_unread_articles().unwrap();
    assert_eq!(unread.len(), 2);
    // the article with a publication time sorts before the one without,
    // however recently the other was fetched
    assert_eq!(unread[0].title, "Old but dated");
    assert_eq!(unread[1].title, "Undated");
    // the joined feed title comes along
    assert_eq!(unread[0].feed_title.as_deref(), Some("Sample"));
}
