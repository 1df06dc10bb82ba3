use vstd::prelude::*;
use vstd::string::StrSliceExecFns;
use crate::models::{clone_opt_string, OpmlFeed};
use crate::PatinaError;

verus! {

/// One outline element of an outline document: what is displayed, an
/// optional title, an optional feed address, and the child outlines.
pub struct OutlineNode {
    pub text: String,
    pub title: Option<String>,
    pub xml_url: Option<String>,
    pub outlines: Vec<OutlineNode>,
}

/// What parsing an OPML document yields: its outline forest, a result of
/// the text alone, or nothing for a malformed document.
pub uninterp spec fn opml_outlines_of(s: Seq<char>) -> Option<Seq<OutlineNode>>;

/// Relies on opml::OPML::from_str to parse the document; the rest converts
/// the parsed outlines into the library's outline type.
#[verifier::external_body]
fn parse_opml_text(content: &str) -> (r: Result<Vec<OutlineNode>, ()>)
    ensures
        (match r {
            Ok(v) => opml_outlines_of(content@) == Some(v@),
            Err(_) => opml_outlines_of(content@) is None,
        }),
{
    match opml::OPML::from_str(content) {
        Ok(doc) => Ok(doc.body.outlines.iter().map(convert_outline).collect()),
        Err(_) => Err(()),
    }
}

/// The outline type of the opml crate, opaque here; it only passes through
/// the converter below.
#[verifier::external_type_specification]
#[verifier::external_body]
pub struct ExOutline(opml::Outline);

/// Relies on field access of opml::Outline only: a one-for-one copy of the
/// fields the extraction reads, child outlines included.
#[verifier::external_body]
fn convert_outline(o: &opml::Outline) -> (r: OutlineNode) {
    OutlineNode {
        text: o.text.clone(),
        title: o.title.clone(),
        xml_url: o.xml_url.clone(),
        outlines: o.outlines.iter().map(convert_outline).collect(),
    }
}

/// The feed entry an outline itself contributes: one entry when it carries
/// a non-empty feed address, titled by its text when that is non-empty and
/// by its title otherwise.
pub open spec fn own_feed(o: OutlineNode) -> Seq<OpmlFeed> {
    match o.xml_url {
        Some(u) => if u@.len() > 0 {
            seq![
                OpmlFeed {
                    url: u,
                    title: if o.text@.len() > 0 {
                        Some(o.text)
                    } else {
                        o.title
                    },
                },
            ]
        } else {
            Seq::empty()
        },
        None => Seq::empty(),
    }
}

/// Every feed of the outline forest, depth first: each outline's own entry
/// comes before its children's, and children come before later siblings.
pub open spec fn extract_feeds_spec(outlines: Seq<OutlineNode>) -> Seq<OpmlFeed>
    decreases outlines,
{
    if outlines.len() == 0 {
        Seq::empty()
    } else {
        own_feed(outlines[0]) + extract_feeds_spec(outlines[0].outlines@) + extract_feeds_spec(
            outlines.drop_first(),
        )
    }
}

pub proof fn lemma_extract_concat(a: Seq<OutlineNode>, b: Seq<OutlineNode>)
    ensures
        extract_feeds_spec(a + b) == extract_feeds_spec(a) + extract_feeds_spec(b),
    decreases a.len(),
{
    if a.len() == 0 {
        assert(a + b =~= b);
        assert(extract_feeds_spec(a) =~= Seq::empty());
        assert(extract_feeds_spec(a) + extract_feeds_spec(b) =~= extract_feeds_spec(b));
    } else {
        assert((a + b)[0] == a[0]);
        assert((a + b).drop_first() =~= a.drop_first() + b);
        lemma_extract_concat(a.drop_first(), b);
        assert(extract_feeds_spec(a + b) =~= extract_feeds_spec(a) + extract_feeds_spec(b));
    }
}

/// Walks the outline forest depth first, appending every feed entry.
pub fn extract_feeds_recursive(outlines: &Vec<OutlineNode>, feeds: &mut Vec<OpmlFeed>)
    ensures
        final(feeds)@ == old(feeds)@ + extract_feeds_spec(outlines@),
    decreases outlines@,
{
    let mut i: usize = 0;
    while i < outlines.len()
        invariant
            i <= outlines@.len(),
            feeds@ == old(feeds)@ + extract_feeds_spec(outlines@.take(i as int)),
        decreases outlines@.len() - i,
    {
        proof {
            assert(outlines@.take(i as int + 1) =~= outlines@.take(i as int) + seq![
                outlines@[i as int],
            ]);
            lemma_extract_concat(outlines@.take(i as int), seq![outlines@[i as int]]);
            let single = seq![outlines@[i as int]];
            assert(single[0] == outlines@[i as int]);
            assert(single.drop_first() =~= Seq::<OutlineNode>::empty());
            assert(extract_feeds_spec(single.drop_first()) =~= Seq::<OpmlFeed>::empty());
            assert(extract_feeds_spec(single) == own_feed(single[0]) + extract_feeds_spec(
                single[0].outlines@,
            ) + extract_feeds_spec(single.drop_first()));
            assert(extract_feeds_spec(single) =~= own_feed(outlines@[i as int])
                + extract_feeds_spec(outlines@[i as int].outlines@));
        }
        let o = &outlines[i];
        match &o.xml_url {
            Some(u) => {
                if u.unicode_len() > 0 {
                    let title = if o.text.unicode_len() > 0 {
                        Some(o.text.clone())
                    } else {
                        clone_opt_string(&o.title)
                    };
                    feeds.push(OpmlFeed { url: u.clone(), title });
                }
            },
            None => {},
        }
        proof {
            assert(feeds@ =~= old(feeds)@ + (extract_feeds_spec(outlines@.take(i as int))
                + own_feed(outlines@[i as int])));
        }
        extract_feeds_recursive(&outlines[i].outlines, feeds);
        proof {
            assert(feeds@ =~= old(feeds)@ + extract_feeds_spec(outlines@.take(i as int + 1)));
        }
        i += 1;
    }
    proof {
        assert(outlines@.take(outlines@.len() as int) =~= outlines@);
    }
}

/// Parses an OPML document and extracts its feed entries, depth first.
/// Fails exactly when the document is malformed.
pub fn parse_opml(content: &str) -> (r: Result<Vec<OpmlFeed>, PatinaError>)
    ensures
        (match r {
            Ok(v) => opml_outlines_of(content@) matches Some(os) && v@ == extract_feeds_spec(os),
            Err(e) => opml_outlines_of(content@) is None && e matches PatinaError::ParseError(_),
        }),
{
    let outlines = match parse_opml_text(content) {
        Ok(os) => os,
        Err(_) => {
            return Err(PatinaError::ParseError("malformed outline document".to_owned()));
        },
    };
    let mut feeds: Vec<OpmlFeed> = Vec::new();
    extract_feeds_recursive(&outlines, &mut feeds);
    proof {
        assert(feeds@ =~= extract_feeds_spec(outlines@));
    }
    Ok(feeds)
}

} // verus!
