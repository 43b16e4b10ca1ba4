//! The structural events of a markdown document that the rewriter looks at.

use vstd::prelude::*;

verus! {

/// What an event says, as far as the rewriter cares.
#[derive(Debug, PartialEq, Eq)]
pub enum EventKind {
    /// A fenced code block opens; the string is its info string.
    BlockStart(String),
    /// A code block closes.
    BlockEnd,
    /// A run of text.
    Text(String),
    /// An inline code span.
    InlineCode(String),
    /// A piece of raw HTML.
    RawMarkup(String),
    /// A line break that the source wrote as a plain line ending.
    SoftBreak,
    /// A line break that the source forced.
    HardBreak,
    /// Anything else.
    Other,
}

/// An event with the half-open byte range `[start, end)` of the document that
/// it was read from.
#[derive(Debug, PartialEq, Eq)]
pub struct SpannedEvent {
    pub kind: EventKind,
    pub start: usize,
    pub end: usize,
}

/// The mathematical value of an [`EventKind`].
pub enum EventKindView {
    BlockStart(Seq<char>),
    BlockEnd,
    Text(Seq<char>),
    InlineCode(Seq<char>),
    RawMarkup(Seq<char>),
    SoftBreak,
    HardBreak,
    Other,
}

/// The mathematical value of a [`SpannedEvent`].
pub struct EventView {
    pub kind: EventKindView,
    pub start: int,
    pub end: int,
}

impl View for EventKind {
    type V = EventKindView;

    open spec fn view(&self) -> EventKindView {
        match self {
            EventKind::BlockStart(tag) => EventKindView::BlockStart(tag@),
            EventKind::BlockEnd => EventKindView::BlockEnd,
            EventKind::Text(text) => EventKindView::Text(text@),
            EventKind::InlineCode(text) => EventKindView::InlineCode(text@),
            EventKind::RawMarkup(text) => EventKindView::RawMarkup(text@),
            EventKind::SoftBreak => EventKindView::SoftBreak,
            EventKind::HardBreak => EventKindView::HardBreak,
            EventKind::Other => EventKindView::Other,
        }
    }
}

impl View for SpannedEvent {
    type V = EventView;

    open spec fn view(&self) -> EventView {
        EventView { kind: self.kind@, start: self.start as int, end: self.end as int }
    }
}

/// The values of a run of events, in order.
pub open spec fn event_views(events: Seq<SpannedEvent>) -> Seq<EventView> {
    Seq::new(events.len(), |i: int| events[i]@)
}

} // verus!
