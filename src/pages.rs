use vstd::prelude::*;
use vstd::utf8::{decode_utf8, valid_utf8};

use crate::corpus::{ids_of, Corpus, QuoteError};
use crate::index::ParticipantIndex;
use crate::navigation::{next_of, previous_of, Bounds};
use crate::text::{parse_u32, parsed_u32};

verus! {

/// The frame around every page: its title, its body, and the relative path
/// from the page back to the site root.
pub struct BaseHtml<'a> {
    pub title: &'a str,
    pub content: String,
    pub relpath: &'static str,
}

/// The site's style sheet.
pub struct StyleCss {}

/// The crawler rules.
pub struct RobotsTxt {}

/// One quote with the links around it: first, previous, next and last.
pub struct QuoteHtml {
    pub first: u32,
    pub last: u32,
    pub previous: u32,
    pub next: u32,
    pub quote: String,
}

/// The quotes that name one participant.
pub struct ParticipantHtml<'a> {
    pub person: &'a String,
    pub participating: &'a [u32],
}

/// The home page: the range of quote ids and every participant.
pub struct HomepageHtml<'a> {
    pub first: u32,
    pub last: u32,
    pub binpath: &'a String,
    pub people: &'a ParticipantIndex,
}

impl QuoteHtml {
    /// The page body for quote `id` of a corpus with the given bounds, with
    /// `quote` as the text shown.
    pub fn new(bounds: Bounds, id: u32, quote: String) -> (r: QuoteHtml)
        ensures
            r.first == bounds.min,
            r.last == bounds.max,
            r.previous == previous_of(bounds.min, bounds.max, id),
            r.next == next_of(bounds.min, bounds.max, id),
            r.quote@ == quote@,
    {
        let (previous, next) = bounds.navigation(id);
        QuoteHtml { first: bounds.min, last: bounds.max, previous, next, quote }
    }
}

/// What a request for a quote resolves to.
pub enum QuotePage<'a> {
    /// The quote exists and reads as text.
    Found(u32, &'a str),
    /// The request names an id that no quote has.
    Missing(u32),
    /// The quote exists but its bytes are not valid UTF-8.
    Unreadable(u32),
    /// The request does not name an id at all.
    NotAnId,
}

/// Resolves the path segment of a quote request, such as `42`.
pub fn resolve_quote<'a>(corpus: &'a Corpus, param: &str) -> (r: QuotePage<'a>)
    requires
        corpus.wf(),
    ensures
        parsed_u32(param@) is None <==> r is NotAnId,
        parsed_u32(param@) matches Some(id) ==> match r {
            QuotePage::Found(i, s) => i == id && exists|k: int|
                0 <= k < corpus@.len() && #[trigger] corpus@[k].0 == id && valid_utf8(corpus@[k].1)
                    && s@ == decode_utf8(corpus@[k].1),
            QuotePage::Missing(i) => i == id && !ids_of(corpus@).contains(id),
            QuotePage::Unreadable(i) => i == id && exists|k: int|
                0 <= k < corpus@.len() && #[trigger] corpus@[k].0 == id && !valid_utf8(corpus@[k].1),
            QuotePage::NotAnId => false,
        },
{
    match parse_u32(param) {
        None => QuotePage::NotAnId,
        Some(id) => {
            let r = corpus.get_quote(id);
            proof {
                if ids_of(corpus@).contains(id) {
                    let k = choose|k: int| 0 <= k < ids_of(corpus@).len() && ids_of(corpus@)[k] == id;
                    assert(corpus@[k].0 == id);
                }
            }
            match r {
                Ok(s) => QuotePage::Found(id, s),
                Err(QuoteError::NotFound) => QuotePage::Missing(id),
                Err(QuoteError::InvalidEncoding) => QuotePage::Unreadable(id),
            }
        },
    }
}

} // verus!
