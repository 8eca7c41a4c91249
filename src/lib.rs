//! Quote corpus, participant index and page navigation for a small
//! IRC-quote server.

pub mod corpus;
pub mod extract;
pub mod index;
pub mod navigation;
pub mod order;
pub mod pages;
pub mod text;

pub use corpus::{index_quoteentries, Corpus, CorpusError, Quote, QuoteError};
pub use extract::{extract_participants, line_participant, step, ParseState, Step};
pub use index::{index_participants, Participant, ParticipantIndex};
pub use navigation::Bounds;
pub use pages::{
    resolve_quote, BaseHtml, HomepageHtml, ParticipantHtml, QuoteHtml, QuotePage, RobotsTxt, StyleCss,
};
pub use text::{chars_of, parse_u32};
