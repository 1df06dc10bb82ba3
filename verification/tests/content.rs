use patina_core::parser::{clean_html, shape_feed_document, RawEntry, RawFeed};
use patina_core::outline::parse_opml;
use patina_core::topics::{extract_topics, is_valid_topic_word, tokenize};

#[test]
fn test_parse_opml() {
    let opml_content = r#"<?xml version="1.0" encoding="UTF-8"?>
        <opml version="2.0">
            <head>
                <title>My Feeds</title>
            </head>
            <body>
                <outline text="Tech" title="Tech">
                    <outline type="rss" text="Hacker News" title="Hacker News"
                             xmlUrl="https://news.ycombinator.com/rss"
                             htmlUrl="https://news.ycombinator.com"/>
                </outline>
                <outline type="rss" text="Example Blog"
                         xmlUrl="https://example.com/feed.xml"/>
            </body>
        </opml>"#;

    let feeds = parse_opml(opml_content).unwrap();

    assert_eq!(feeds.len(), 2);
    assert!(feeds.iter().any(|f| f.url.contains("ycombinator")));
    assert!(feeds.iter().any(|f| f.url.contains("example.com")));
}

#[test]
fn test_clean_html() {
    assert_eq!(clean_html("<p>Hello</p>"), "Hello");
    assert_eq!(clean_html("Hello &amp; World"), "Hello & World");
    assert_eq!(clean_html("  Multiple   spaces  "), "Multiple spaces");
}

#[test]
fn test_clean_html_entities() {
    assert_eq!(clean_html("1 &lt; 2 &gt; 0"), "1 < 2 > 0");
    assert_eq!(clean_html("&quot;x&quot; &apos;y&apos;"), "\"x\" 'y'");
    assert_eq!(clean_html("a&nbsp;b"), "a b");
    assert_eq!(clean_html("&unknown;"), "&unknown;");
}

#[test]
fn test_tokenize() {
    let tokens = tokenize("Hello, World! This is a test.");
    assert_eq!(tokens, vec!["hello", "world", "this", "is", "a", "test"]);
}

#[test]
fn test_is_valid_topic_word() {
    assert!(is_valid_topic_word("rust"));
    assert!(is_valid_topic_word("programming"));
    assert!(!is_valid_topic_word("the")); // stop word
    assert!(!is_valid_topic_word("is")); // stop word
    assert!(!is_valid_topic_word("ab")); // too short
    assert!(!is_valid_topic_word("123")); // all digits
}

#[test]
fn test_extract_topics() {
    let topics = extract_topics(
        "Rust Programming Language Guide",
        Some("Learn how to write efficient systems programming with Rust"),
    )
    .unwrap();

    assert!(!topics.is_empty());
    assert!(topics.iter().any(|(t, _)| t == "rust"));
    assert!(topics.iter().any(|(t, _)| t == "programming"));
}

#[test]
fn test_extract_topics_empty_input() {
    let topics = extract_topics("", Some("")).unwrap();
    assert!(topics.is_empty());
}

#[test]
fn test_extract_topics_no_stop_words() {
    let topics = extract_topics("the the the", Some("the and or but")).unwrap();
    assert!(topics.is_empty());
    let topics = extract_topics("serendipity reading", None).unwrap();
    assert!(topics.iter().all(|(t, _)| t != "the"));
    assert!(!topics.is_empty());
}

#[test]
fn test_extract_topics_scores() {
    // one candidate word appearing once in the title: full share of the count
    let topics = extract_topics("serendipity", None).unwrap();
    assert_eq!(topics.len(), 1);
    assert_eq!(topics[0].0, "serendipity");
    assert_eq!(topics[0].1, 1_000_000);
    // two distinct candidates, one in the title (weight 3) and one in the
    // summary (weight 1): shares of 3/4 and 1/4
    let topics = extract_topics("compilers", Some("verification")).unwrap();
    assert_eq!(topics.len(), 2);
    assert_eq!(topics[0].0, "compilers");
    assert_eq!(topics[0].1, 750_000);
    assert_eq!(topics[1].0, "verification");
    assert_eq!(topics[1].1, 250_000);
}

#[test]
fn test_shape_feed_document() {
    let doc = RawFeed {
        title: Some("Example Feed".to_string()),
        links: vec!["https://example.com".to_string()],
        entries: vec![
            RawEntry {
                title: Some("First Post".to_string()),
                links: vec!["https://example.com/one".to_string()],
                summary: Some("<p>Body &amp; more</p>".to_string()),
                content_body: None,
                published_at: Some(1_700_000_000),
                updated_at: None,
            },
            RawEntry {
                title: None,
                links: Vec::new(),
                summary: None,
                content_body: None,
                published_at: None,
                updated_at: None,
            },
        ],
    };
    let parsed = shape_feed_document(&doc, "https://example.com/feed.xml");
    assert_eq!(parsed.title, "Example Feed");
    assert_eq!(parsed.url, "https://example.com/feed.xml");
    assert_eq!(parsed.site_url.as_deref(), Some("https://example.com"));
    // the entry without a link cannot become an article
    assert_eq!(parsed.articles.len(), 1);
    assert_eq!(parsed.articles[0].title, "First Post");
    assert_eq!(parsed.articles[0].url, "https://example.com/one");
    assert_eq!(parsed.articles[0].summary.as_deref(), Some("Body & more"));
    assert_eq!(parsed.articles[0].published_at, Some(1_700_000_000));
}

#[test]
fn test_shape_feed_document_fallbacks() {
    let doc = RawFeed {
        title: None,
        links: Vec::new(),
        entries: vec![RawEntry {
            title: None,
            links: vec!["https://example.com/one".to_string()],
            summary: None,
            content_body: Some("<b>content</b> body".to_string()),
            published_at: None,
            updated_at: Some(42),
        }],
    };
    let parsed = shape_feed_document(&doc, "https://example.com/feed.xml");
    assert_eq!(parsed.title, "Untitled Feed");
    assert!(parsed.site_url.is_none());
    assert_eq!(parsed.articles.len(), 1);
    assert_eq!(parsed.articles[0].title, "Untitled");
    assert_eq!(parsed.articles[0].summary.as_deref(), Some("content body"));
    assert_eq!(parsed.articles[0].published_at, Some(42));
}
