//! Turning a fetched feed document into entries.
//!
//! Fetching itself is a collaborator outside this library; what comes
//! back — one document, or nothing — is handed in as a plain value.

use vstd::prelude::*;

use crate::entry::Entry;
use crate::entry::EntryModel;
use crate::text::contains_seq;
use crate::text::str_contains;

verus! {

/// The document stays clear of the parser's unchecked arithmetic.
///
/// `feed_rs` parses `itunes:duration` element text and the
/// `start`/`end`/`time` attributes of Media RSS elements with
/// `parse_npt`, which feeds unbounded digit runs into
/// `str::parse::<u64>().unwrap()` and an unchecked multiply — a panic
/// on a crafted duration.  Those handlers run only for elements bound
/// to the iTunes or Media RSS namespace, and binding either namespace
/// requires its URI, letter for letter, in an `xmlns` attribute value.
/// A document that carries neither URI marker can still smuggle one in
/// through numeric character references (`&#...;`), which the XML
/// layer decodes inside attribute values; the five named entities
/// decode to punctuation only and cannot.  So a document without
/// either URI marker and without `&#` never reaches `parse_npt`.
pub open spec fn extension_free(doc: Seq<char>) -> bool {
    &&& !contains_seq(doc, "itunes.com/dtds"@)
    &&& !contains_seq(doc, "search.yahoo.com/mrss"@)
    &&& !contains_seq(doc, "&#"@)
}

/// What feed parsing yields on a given document: `None` when the text
/// is no recognizable feed, otherwise its entries — title, body,
/// summary and links of each — in document order.
pub uninterp spec fn parsed_entries(doc: Seq<char>) -> Option<Seq<EntryModel>>;

/// Relies on feed_rs::parser::parse: reads one feed document (Atom, a
/// flavour of RSS, or JSON Feed) and yields its entries.  The fields
/// kept here are a function of the document text alone.  The
/// `extension_free` bound keeps the parse away from its one
/// input-reachable panic (see that function's comment); on every
/// admitted document the parse returns normally, `Err` for text that
/// is no feed.
#[verifier::external_body]
fn parse_feed_entries(doc: &str) -> (r: Option<Vec<Entry>>)
    requires
        extension_free(doc@),
    ensures
        r.deep_view() == parsed_entries(doc@),
{
    let feed = match feed_rs::parser::parse(doc.as_bytes()) {
        Ok(feed) => feed,
        Err(_) => return None,
    };
    let entries = feed.entries.into_iter().map(|e| Entry {
        title: e.title.map(|t| t.content),
        body: e.content.and_then(|c| c.body),
        summary: e.summary.map(|s| s.content),
        links: e.links.into_iter().map(|l| l.href).collect(),
    }).collect();
    Some(entries)
}

/// Resolves a source's fetch outcome: a fetched document is parsed
/// into its entries; an absent document, one that is no feed, or one
/// declined by [`extension_free`] leaves the source unresolved for
/// this pass.
pub fn resolve_source(doc: Option<&str>) -> (r: Option<Vec<Entry>>)
    ensures
        r.deep_view() == match doc {
            Some(text) => if extension_free(text@) {
                parsed_entries(text@)
            } else {
                None
            },
            None => None::<Seq<EntryModel>>,
        },
{
    match doc {
        Some(text) => {
            if str_contains(text, "itunes.com/dtds") || str_contains(text, "search.yahoo.com/mrss")
                || str_contains(text, "&#") {
                None
            } else {
                parse_feed_entries(text)
            }
        },
        None => None,
    }
}

} // verus!
