use vstd::prelude::*;
use crate::models::{clone_opt_string, ParsedArticle, ParsedFeed};
use crate::text::{chars_eq_str, chars_vec, is_space_char, string_from_chars};

verus! {

// ---------------------------------------------------------------------------
// The parsed shape of a feed document, as plain values.
// ---------------------------------------------------------------------------

/// One entry of a parsed feed document, as the fetch layer hands it in:
/// each field is the plain content of the corresponding part of the
/// document.
pub struct RawEntry {
    pub title: Option<String>,
    pub links: Vec<String>,
    pub summary: Option<String>,
    pub content_body: Option<String>,
    pub published_at: Option<i64>,
    pub updated_at: Option<i64>,
}

/// A parsed feed document, as the fetch layer hands it in: its title, its
/// link addresses, and its entries.
pub struct RawFeed {
    pub title: Option<String>,
    pub links: Vec<String>,
    pub entries: Vec<RawEntry>,
}

// ---------------------------------------------------------------------------
// Turning a parsed document into the stored feed shape.
// ---------------------------------------------------------------------------

/// The document entries that carry at least one link; the others cannot
/// become articles.
pub open spec fn entries_with_links(es: Seq<RawEntry>) -> Seq<RawEntry>
    decreases es.len(),
{
    if es.len() == 0 {
        Seq::empty()
    } else {
        let rest = entries_with_links(es.drop_last());
        if es.last().links.len() > 0 {
            rest.push(es.last())
        } else {
            rest
        }
    }
}

/// The stored article that a document entry becomes: first link as the
/// address, a fallback title, the summary (or, failing that, the content
/// body) stripped of markup, and the publication time falling back to the
/// update time.
pub open spec fn article_matches(pa: ParsedArticle, e: RawEntry) -> bool {
    &&& e.links.len() > 0
    &&& pa.url@ == e.links[0]@
    &&& pa.title@ == (match e.title {
        Some(t) => t@,
        None => "Untitled"@,
    })
    &&& (match e.summary {
        Some(s) => pa.summary matches Some(x) && x@ == clean_html_spec(s@),
        None => (match e.content_body {
            Some(b) => pa.summary matches Some(x) && x@ == clean_html_spec(b@),
            None => pa.summary is None,
        }),
    })
    &&& pa.published_at == (if e.published_at is Some {
        e.published_at
    } else {
        e.updated_at
    })
}

/// Turns a parsed feed document into the stored feed shape: fallback
/// titles, the first link as the site address, summaries stripped of
/// markup, and publication times falling back to update times.
pub fn shape_feed_document(f: &RawFeed, url: &str) -> (pf: ParsedFeed)
    ensures
        pf.url@ == url@,
        pf.title@ == (match f.title {
            Some(t) => t@,
            None => "Untitled Feed"@,
        }),
        (match f.links.len() {
            0 => pf.site_url is None,
            _ => pf.site_url matches Some(s) && s@ == f.links[0]@,
        }),
        pf.articles@.len() == entries_with_links(f.entries@).len(),
        forall|k: int|
            0 <= k < pf.articles@.len() ==> article_matches(
                #[trigger] pf.articles@[k],
                entries_with_links(f.entries@)[k],
            ),
{
    let title = match &f.title {
        Some(t) => t.clone(),
        None => "Untitled Feed".to_owned(),
    };
    let site_url = if f.links.len() > 0 {
        Some(f.links[0].clone())
    } else {
        None
    };
    let mut articles: Vec<ParsedArticle> = Vec::new();
    let mut i: usize = 0;
    while i < f.entries.len()
        invariant
            i <= f.entries@.len(),
            articles@.len() == entries_with_links(f.entries@.take(i as int)).len(),
            forall|k: int|
                0 <= k < articles@.len() ==> article_matches(
                    #[trigger] articles@[k],
                    entries_with_links(f.entries@.take(i as int))[k],
                ),
        decreases f.entries@.len() - i,
    {
        proof {
            assert(f.entries@.take(i as int + 1).drop_last() =~= f.entries@.take(i as int));
            assert(f.entries@.take(i as int + 1).last() == f.entries@[i as int]);
        }
        let e = &f.entries[i];
        if e.links.len() > 0 {
            let entry_url = e.links[0].clone();
            let entry_title = match &e.title {
                Some(t) => t.clone(),
                None => "Untitled".to_owned(),
            };
            let summary = match &e.summary {
                Some(s) => Some(clean_html(s.as_str())),
                None => match &e.content_body {
                    Some(b) => Some(clean_html(b.as_str())),
                    None => None,
                },
            };
            let published_at = if e.published_at.is_some() {
                e.published_at
            } else {
                e.updated_at
            };
            articles.push(
                ParsedArticle { title: entry_title, url: entry_url, summary, published_at },
            );
        }
        i += 1;
    }
    proof {
        assert(f.entries@.take(f.entries@.len() as int) =~= f.entries@);
    }
    ParsedFeed { title, url: url.to_owned(), site_url, articles }
}

// ---------------------------------------------------------------------------
// Stripping HTML markup from feed summaries: a single pass removes tags and
// decodes the common entities, then whitespace is collapsed and trimmed.
// ---------------------------------------------------------------------------

/// The scanner's state while stripping markup.
pub ghost struct CleanState {
    pub in_tag: bool,
    pub in_entity: bool,
    pub entity: Seq<char>,
    pub out: Seq<char>,
}

/// What a named character entity decodes to; an unrecognized one is kept
/// as written.
pub open spec fn decode_entity(e: Seq<char>) -> Seq<char> {
    if e == "amp"@ {
        seq!['&']
    } else if e == "lt"@ {
        seq!['<']
    } else if e == "gt"@ {
        seq!['>']
    } else if e == "quot"@ {
        seq!['"']
    } else if e == "apos"@ {
        seq!['\'']
    } else if e == "nbsp"@ {
        seq![' ']
    } else {
        seq!['&'] + e + seq![';']
    }
}

pub open spec fn clean_step(st: CleanState, c: char) -> CleanState {
    if c == '<' {
        CleanState { in_tag: true, ..st }
    } else if c == '>' {
        CleanState { in_tag: false, ..st }
    } else if c == '&' && !st.in_tag {
        CleanState { in_entity: true, entity: Seq::empty(), ..st }
    } else if c == ';' && st.in_entity {
        CleanState { in_entity: false, out: st.out + decode_entity(st.entity), ..st }
    } else if st.in_entity {
        CleanState { entity: st.entity.push(c), ..st }
    } else if !st.in_tag {
        CleanState { out: st.out.push(c), ..st }
    } else {
        st
    }
}

pub open spec fn clean_fold(s: Seq<char>) -> CleanState
    decreases s.len(),
{
    if s.len() == 0 {
        CleanState { in_tag: false, in_entity: false, entity: Seq::empty(), out: Seq::empty() }
    } else {
        clean_step(clean_fold(s.drop_last()), s.last())
    }
}

/// Whitespace collapsing: runs of whitespace become one space, and leading
/// whitespace is dropped.  The boolean is "the previous character was
/// (treated as) a space".
pub open spec fn norm_fold(s: Seq<char>) -> (bool, Seq<char>)
    decreases s.len(),
{
    if s.len() == 0 {
        (true, Seq::empty())
    } else {
        let prev = norm_fold(s.drop_last());
        if is_space_char(s.last()) {
            if !prev.0 {
                (true, prev.1.push(' '))
            } else {
                (true, prev.1)
            }
        } else {
            (false, prev.1.push(s.last()))
        }
    }
}

pub open spec fn trim_trailing(s: Seq<char>) -> Seq<char>
    decreases s.len(),
{
    if s.len() > 0 && s.last() == ' ' {
        trim_trailing(s.drop_last())
    } else {
        s
    }
}

pub open spec fn trim_leading(s: Seq<char>) -> Seq<char>
    decreases s.len(),
{
    if s.len() > 0 && s.first() == ' ' {
        trim_leading(s.drop_first())
    } else {
        s
    }
}

/// The text of an HTML fragment: markup stripped, common entities decoded,
/// whitespace collapsed and trimmed.
pub open spec fn clean_html_spec(s: Seq<char>) -> Seq<char> {
    trim_leading(trim_trailing(norm_fold(clean_fold(s).out).1))
}

/// Strips HTML tags and entities from a string and normalizes whitespace.
pub fn clean_html(html: &str) -> (r: String)
    ensures
        r@ == clean_html_spec(html@),
{
    let cs = chars_vec(html);
    let mut in_tag = false;
    let mut in_entity = false;
    let mut entity: Vec<char> = Vec::new();
    let mut out: Vec<char> = Vec::new();
    let mut i: usize = 0;
    while i < cs.len()
        invariant
            i <= cs@.len(),
            cs@ == html@,
            clean_fold(cs@.take(i as int)) == (CleanState {
                in_tag: in_tag,
                in_entity: in_entity,
                entity: entity@,
                out: out@,
            }),
        decreases cs@.len() - i,
    {
        proof {
            assert(cs@.take(i as int + 1).drop_last() =~= cs@.take(i as int));
            assert(cs@.take(i as int + 1).last() == cs@[i as int]);
        }
        let c = cs[i];
        if c == '<' {
            in_tag = true;
        } else if c == '>' {
            in_tag = false;
        } else if c == '&' && !in_tag {
            in_entity = true;
            entity.clear();
        } else if c == ';' && in_entity {
            in_entity = false;
            if chars_eq_str(&entity, "amp") {
                out.push('&');
            } else if chars_eq_str(&entity, "lt") {
                out.push('<');
            } else if chars_eq_str(&entity, "gt") {
                out.push('>');
            } else if chars_eq_str(&entity, "quot") {
                out.push('"');
            } else if chars_eq_str(&entity, "apos") {
                out.push('\'');
            } else if chars_eq_str(&entity, "nbsp") {
                out.push(' ');
            } else {
                let ghost target = out@ + seq!['&'] + entity@ + seq![';'];
                out.push('&');
                let mut j: usize = 0;
                while j < entity.len()
                    invariant
                        j <= entity@.len(),
                        out@ == target.take(target.len() - entity@.len() - 1 + j),
                        target == out@.take(out@.len() - j as int) + entity@ + seq![';'],
                    decreases entity@.len() - j,
                {
                    out.push(entity[j]);
                    proof {
                        assert(out@ =~= target.take(
                            target.len() - entity@.len() - 1 + j as int + 1,
                        ));
                        assert(target =~= out@.take(out@.len() - (j as int + 1)) + entity@ + seq![
                            ';',
                        ]);
                    }
                    j += 1;
                }
                out.push(';');
                proof {
                    assert(out@ =~= target);
                }
            }
            proof {
                assert(out@ =~= clean_fold(cs@.take(i as int)).out + decode_entity(entity@));
            }
        } else if in_entity {
            entity.push(c);
        } else if !in_tag {
            out.push(c);
        }
        i += 1;
    }
    proof {
        assert(cs@.take(cs@.len() as int) =~= cs@);
    }
    // collapse whitespace
    let mut norm: Vec<char> = Vec::new();
    let mut last_was_space = true;
    let mut i: usize = 0;
    while i < out.len()
        invariant
            i <= out@.len(),
            norm_fold(out@.take(i as int)) == (last_was_space, norm@),
        decreases out@.len() - i,
    {
        proof {
            assert(out@.take(i as int + 1).drop_last() =~= out@.take(i as int));
            assert(out@.take(i as int + 1).last() == out@[i as int]);
        }
        let c = out[i];
        if c.is_whitespace() {
            if !last_was_space {
                norm.push(' ');
                last_was_space = true;
            }
        } else {
            norm.push(c);
            last_was_space = false;
        }
        i += 1;
    }
    proof {
        assert(out@.take(out@.len() as int) =~= out@);
    }
    // trim
    let ghost normed = norm@;
    while norm.len() > 0 && norm[norm.len() - 1] == ' '
        invariant
            trim_trailing(norm@) == trim_trailing(normed),
        decreases norm@.len(),
    {
        norm.pop();
        proof {
            assert(norm@ =~= norm@);
        }
    }
    proof {
        assert(trim_trailing(norm@) == norm@);
    }
    let mut s: usize = 0;
    proof {
        assert(norm@.skip(0) =~= norm@);
    }
    while s < norm.len() && norm[s] == ' '
        invariant
            s <= norm@.len(),
            trim_leading(norm@) == trim_leading(norm@.skip(s as int)),
        decreases norm@.len() - s,
    {
        proof {
            assert(norm@.skip(s as int).first() == norm@[s as int]);
            assert(norm@.skip(s as int).drop_first() =~= norm@.skip(s as int + 1));
        }
        s += 1;
    }
    let mut fin: Vec<char> = Vec::new();
    let mut i: usize = s;
    while i < norm.len()
        invariant
            s <= i <= norm@.len(),
            fin@ == norm@.subrange(s as int, i as int),
        decreases norm@.len() - i,
    {
        fin.push(norm[i]);
        proof {
            assert(fin@ =~= norm@.subrange(s as int, i as int + 1));
        }
        i += 1;
    }
    proof {
        if s < norm@.len() {
            assert(norm@.skip(s as int).first() == norm@[s as int]);
            assert(norm@[s as int] != ' ');
            assert(trim_leading(norm@.skip(s as int)) == norm@.skip(s as int));
        } else {
            assert(norm@.skip(s as int).len() == 0);
            assert(trim_leading(norm@.skip(s as int)) == norm@.skip(s as int));
        }
        assert(fin@ =~= norm@.skip(s as int));
    }
    string_from_chars(&fin)
}

} // verus!
