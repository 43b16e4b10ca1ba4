//! Reading the structural events of a markdown document. The CommonMark
//! grammar is not implemented here: the `pulldown-cmark` parser does the
//! reading, and this module hands its events on in the rewriter's own types.

use vstd::prelude::*;
use pulldown_cmark::{CodeBlockKind, Event, Parser, Tag, TagEnd};
use crate::event::{event_views, EventKind, EventView, SpannedEvent};

verus! {

/// The events that `pulldown-cmark` reads from a document with no extension
/// switched on, in document order, each with the byte range of the source it
/// was read from. The parser decides what they are; nothing is known of them
/// here but that the same text gives the same events.
pub uninterp spec fn markdown_events(text: Seq<char>) -> Seq<EventView>;

/// Runs `pulldown_cmark::Parser::new(content).into_offset_iter()` to its end
/// and hands out each pair of event and range as a [`SpannedEvent`]: the start
/// of a fenced code block with its info string, the end of a code block, text,
/// inline code, an HTML block's text, the two line breaks, and `Other` for
/// every other event. Trusted: that the result is a function of the text alone.
#[verifier::external_body]
pub(crate) fn tokenize(content: &str) -> (events: Vec<SpannedEvent>)
    ensures
        event_views(events@) == markdown_events(content@),
{
    Parser::new(content).into_offset_iter().map(|(event, span)| {
        let kind = match event {
            Event::Start(Tag::CodeBlock(CodeBlockKind::Fenced(tag))) => EventKind::BlockStart(tag.to_string()),
            Event::End(TagEnd::CodeBlock) => EventKind::BlockEnd,
            Event::Text(text) => EventKind::Text(text.to_string()),
            Event::Code(text) => EventKind::InlineCode(text.to_string()),
            Event::Html(text) => EventKind::RawMarkup(text.to_string()),
            Event::SoftBreak => EventKind::SoftBreak,
            Event::HardBreak => EventKind::HardBreak,
            _ => EventKind::Other,
        };
        SpannedEvent { kind, start: span.start, end: span.end }
    }).collect()
}

} // verus!
