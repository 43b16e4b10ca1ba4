//! The transform itself: from a markdown document to the document with its
//! diagram blocks replaced.

use vstd::prelude::*;
use crate::event::{event_views, EventView, SpannedEvent};
use crate::scan::{collect_replacements, lemma_no_target_no_replacement, opens_target, replacements};
use crate::splice::{check_spans, spans_fit, splice, spliced};
use crate::text::utf8;
use crate::tokenizer::{markdown_events, tokenize};

verus! {

/// Why a document could not be rewritten.
#[derive(Debug, Clone, Copy, PartialEq, Eq, Structural)]
pub enum RewriteError {
    /// The events name byte ranges that cannot be cut out of the document:
    /// out of order, past its end, or inside a character.
    MalformedSpans,
}

impl RewriteError {
    /// The error in words.
    pub fn message(&self) -> (text: String)
        ensures
            text@ == "the markdown events name byte ranges that do not fit the document"@,
    {
        "the markdown events name byte ranges that do not fit the document".to_owned()
    }
}

/// The bytes of the rewritten document, for a document and the events read
/// from it; `None` where the replacements do not fit the document.
pub open spec fn rewritten(doc: Seq<u8>, events: Seq<EventView>) -> Option<Seq<u8>> {
    let records = replacements(events);
    if spans_fit(doc, records) {
        Some(spliced(doc, records))
    } else {
        None
    }
}

/// Rewrites a document whose events are given: every fenced block with the
/// target tag gives way to its fragment, and all else stays byte for byte.
/// Fails, and writes nothing, where the events' ranges do not fit the
/// document.
pub fn rewrite_events(content: &str, events: &Vec<SpannedEvent>) -> (result: Result<
    String,
    RewriteError,
>)
    ensures
        match result {
            Ok(output) => rewritten(utf8(content@), event_views(events@)) == Some(utf8(output@)),
            Err(error) => rewritten(utf8(content@), event_views(events@)) is None && error
                == RewriteError::MalformedSpans,
        },
{
    let records = collect_replacements(events);
    if check_spans(content, &records) {
        Ok(splice(content, &records))
    } else {
        Err(RewriteError::MalformedSpans)
    }
}

/// Reads a markdown document and replaces each of its Mermaid code blocks by
/// an Excalidraw container that carries the block's source.
pub fn add_excalidraw(content: &str) -> (result: Result<String, RewriteError>)
    ensures
        match result {
            Ok(output) => rewritten(utf8(content@), markdown_events(content@)) == Some(
                utf8(output@),
            ),
            Err(error) => rewritten(utf8(content@), markdown_events(content@)) is None && error
                == RewriteError::MalformedSpans,
        },
{
    let events = tokenize(content);
    rewrite_events(content, &events)
}

/// A document in which no block with the target tag opens is rewritten to
/// itself, byte for byte.
pub proof fn lemma_without_target_unchanged(doc: Seq<u8>, events: Seq<EventView>)
    requires
        forall|i: int| 0 <= i < events.len() ==> !opens_target(#[trigger] events[i]),
    ensures
        rewritten(doc, events) == Some(doc),
{
    lemma_no_target_no_replacement(events);
    assert(spliced(doc, replacements(events)) =~= doc);
}

} // verus!
