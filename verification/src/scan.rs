//! The scan over the events of a document: it gathers the source of every
//! fenced block with the target tag and writes one replacement per block.

use vstd::prelude::*;
use crate::event::{event_views, EventKind, EventKindView, EventView, SpannedEvent};
use crate::fragment::{fragment, render_fragment};
use crate::text::text_eq;

verus! {

/// The info string of the blocks that are rewritten.
pub const TARGET_TAG: &'static str = "mermaid";

/// A stretch `[start, end)` of the document, in bytes, and the text that
/// takes its place.
#[derive(Debug, PartialEq, Eq)]
pub struct Replacement {
    pub start: usize,
    pub end: usize,
    pub text: String,
}

/// The mathematical value of a [`Replacement`].
pub struct ReplacementView {
    pub start: int,
    pub end: int,
    pub text: Seq<char>,
}

impl View for Replacement {
    type V = ReplacementView;

    open spec fn view(&self) -> ReplacementView {
        ReplacementView { start: self.start as int, end: self.end as int, text: self.text@ }
    }
}

/// The values of a list of replacements, in order.
pub open spec fn replacement_views(records: Seq<Replacement>) -> Seq<ReplacementView> {
    Seq::new(records.len(), |i: int| records[i]@)
}

/// Where the scan stands.
pub enum Mode {
    /// In no fenced block.
    Outside,
    /// In a fenced block with the target tag, which began at byte `start` and
    /// whose content so far is `source`.
    InsideTarget { start: int, source: Seq<char> },
    /// In a fenced block with another tag.
    InsideOther,
}

/// The state of the scan: where it stands, and the replacements written so
/// far.
pub struct ScanState {
    pub mode: Mode,
    pub records: Seq<ReplacementView>,
}

/// The state before the first event.
pub open spec fn initial_state() -> ScanState {
    ScanState { mode: Mode::Outside, records: Seq::empty() }
}

/// The state after one more event.
pub open spec fn step(state: ScanState, event: EventView) -> ScanState {
    match state.mode {
        Mode::Outside => match event.kind {
            EventKindView::BlockStart(tag) => if tag == TARGET_TAG@ {
                ScanState {
                    mode: Mode::InsideTarget { start: event.start, source: Seq::empty() },
                    records: state.records,
                }
            } else {
                ScanState { mode: Mode::InsideOther, records: state.records }
            },
            _ => state,
        },
        Mode::InsideTarget { start, source } => match event.kind {
            EventKindView::BlockStart(tag) => if tag == TARGET_TAG@ {
                ScanState {
                    mode: Mode::InsideTarget { start: event.start, source: Seq::empty() },
                    records: state.records,
                }
            } else {
                state
            },
            EventKindView::BlockEnd => ScanState {
                mode: Mode::Outside,
                records: state.records.push(
                    ReplacementView {
                        start: start,
                        end: event.end,
                        text: fragment(state.records.len(), source),
                    },
                ),
            },
            EventKindView::Text(text) => ScanState {
                mode: Mode::InsideTarget { start: start, source: source + text },
                records: state.records,
            },
            EventKindView::InlineCode(text) => ScanState {
                mode: Mode::InsideTarget { start: start, source: source + text },
                records: state.records,
            },
            EventKindView::RawMarkup(text) => ScanState {
                mode: Mode::InsideTarget { start: start, source: source + text },
                records: state.records,
            },
            EventKindView::SoftBreak => ScanState {
                mode: Mode::InsideTarget { start: start, source: source.push('\n') },
                records: state.records,
            },
            EventKindView::HardBreak => ScanState {
                mode: Mode::InsideTarget { start: start, source: source.push('\n') },
                records: state.records,
            },
            EventKindView::Other => state,
        },
        Mode::InsideOther => match event.kind {
            EventKindView::BlockEnd => ScanState { mode: Mode::Outside, records: state.records },
            _ => state,
        },
    }
}

/// The state after a run of events, taken in order.
pub open spec fn scan_from(state: ScanState, events: Seq<EventView>) -> ScanState
    decreases events.len(),
{
    if events.len() == 0 {
        state
    } else {
        scan_from(step(state, events.first()), events.drop_first())
    }
}

/// The replacements that the events of a whole document give.
pub open spec fn replacements(events: Seq<EventView>) -> Seq<ReplacementView> {
    scan_from(initial_state(), events).records
}

/// Which kind of block the scan is in.
#[derive(Debug, Clone, Copy, PartialEq, Eq, Structural)]
enum Place {
    Outside,
    InsideTarget,
    InsideOther,
}

/// The scan in progress. Feed it the events of one document in order, then
/// take the replacements.
pub struct Scanner {
    place: Place,
    start: usize,
    source: String,
    records: Vec<Replacement>,
}

impl View for Scanner {
    type V = ScanState;

    closed spec fn view(&self) -> ScanState {
        ScanState {
            mode: match self.place {
                Place::Outside => Mode::Outside,
                Place::InsideTarget => Mode::InsideTarget {
                    start: self.start as int,
                    source: self.source@,
                },
                Place::InsideOther => Mode::InsideOther,
            },
            records: replacement_views(self.records@),
        }
    }
}

impl Scanner {
    /// A scan that has seen no event yet.
    pub fn new() -> (scanner: Scanner)
        ensures
            scanner@ == initial_state(),
    {
        let scanner = Scanner {
            place: Place::Outside,
            start: 0,
            source: String::new(),
            records: Vec::new(),
        };
        assert(replacement_views(scanner.records@) =~= Seq::empty());
        scanner
    }

    /// Takes one more event.
    pub fn feed(&mut self, event: &SpannedEvent)
        ensures
            final(self)@ == step(old(self)@, event@),
    {
        match self.place {
            Place::Outside => {
                if let EventKind::BlockStart(tag) = &event.kind {
                    if text_eq(tag.as_str(), TARGET_TAG) {
                        self.place = Place::InsideTarget;
                        self.start = event.start;
                        self.source = String::new();
                    } else {
                        self.place = Place::InsideOther;
                    }
                }
            },
            Place::InsideTarget => {
                match &event.kind {
                    EventKind::BlockStart(tag) => {
                        if text_eq(tag.as_str(), TARGET_TAG) {
                            self.start = event.start;
                            self.source = String::new();
                        }
                    },
                    EventKind::BlockEnd => {
                        let text = render_fragment(self.records.len(), self.source.as_str());
                        let record = Replacement { start: self.start, end: event.end, text };
                        self.records.push(record);
                        self.place = Place::Outside;
                        self.source = String::new();
                        assert(replacement_views(self.records@) =~= replacement_views(
                            old(self).records@,
                        ).push(record@));
                    },
                    EventKind::Text(text) => {
                        self.source.append(text.as_str());
                    },
                    EventKind::InlineCode(text) => {
                        self.source.append(text.as_str());
                    },
                    EventKind::RawMarkup(text) => {
                        self.source.append(text.as_str());
                    },
                    EventKind::SoftBreak => {
                        self.source.push('\n');
                    },
                    EventKind::HardBreak => {
                        self.source.push('\n');
                    },
                    EventKind::Other => {},
                }
            },
            Place::InsideOther => {
                if let EventKind::BlockEnd = &event.kind {
                    self.place = Place::Outside;
                }
            },
        }
    }

    /// Ends the scan and hands out the replacements, in the order in which
    /// their blocks closed. A block that never closed gives none.
    pub fn finish(self) -> (records: Vec<Replacement>)
        ensures
            replacement_views(records@) == self@.records,
    {
        self.records
    }
}

/// Scans the events of one document and writes the replacement of every
/// fenced block with the target tag.
pub fn collect_replacements(events: &Vec<SpannedEvent>) -> (records: Vec<Replacement>)
    ensures
        replacement_views(records@) == replacements(event_views(events@)),
{
    let mut scanner = Scanner::new();
    let mut i: usize = 0;
    let ghost all = event_views(events@);
    assert(all.skip(0) =~= all);
    while i < events.len()
        invariant
            0 <= i <= events.len(),
            all == event_views(events@),
            scan_from(scanner@, all.skip(i as int)) == scan_from(initial_state(), all),
        decreases events.len() - i,
    {
        proof {
            assert(all.skip(i as int).first() == events@[i as int]@);
            assert(all.skip(i as int).drop_first() =~= all.skip(i as int + 1));
        }
        scanner.feed(&events[i]);
        i += 1;
    }
    assert(all.skip(i as int) =~= Seq::empty());
    scanner.finish()
}

/// The event opens a fenced block with the target tag.
pub open spec fn opens_target(event: EventView) -> bool {
    event.kind == EventKindView::BlockStart(TARGET_TAG@)
}

/// `text` is the fragment of the block with index `index`, for some source.
pub open spec fn is_fragment_for(text: Seq<char>, index: nat) -> bool {
    exists|source: Seq<char>| #[trigger] fragment(index, source) == text
}

/// Each replacement holds the fragment that carries its own position in the
/// list as its index.
pub open spec fn numbered(records: Seq<ReplacementView>) -> bool {
    forall|k: int| 0 <= k < records.len() ==> is_fragment_for((#[trigger] records[k]).text, k as nat)
}

/// Scanning a run of events and then another is scanning the two as one.
pub proof fn lemma_scan_concat(state: ScanState, first: Seq<EventView>, rest: Seq<EventView>)
    ensures
        scan_from(state, first + rest) == scan_from(scan_from(state, first), rest),
    decreases first.len(),
{
    if first.len() == 0 {
        assert(first + rest =~= rest);
    } else {
        assert((first + rest).first() == first.first());
        assert((first + rest).drop_first() =~= first.drop_first() + rest);
        lemma_scan_concat(step(state, first.first()), first.drop_first(), rest);
    }
}

/// As long as no block with the target tag opens, no replacement is written.
pub proof fn lemma_scan_without_target(state: ScanState, events: Seq<EventView>)
    requires
        !(state.mode is InsideTarget),
        forall|i: int| 0 <= i < events.len() ==> !opens_target(#[trigger] events[i]),
    ensures
        scan_from(state, events).records == state.records,
        !(scan_from(state, events).mode is InsideTarget),
    decreases events.len(),
{
    if events.len() > 0 {
        assert(!opens_target(events[0]));
        assert forall|i: int| 0 <= i < events.drop_first().len() implies !opens_target(
            #[trigger] events.drop_first()[i],
        ) by {
            assert(events.drop_first()[i] == events[i + 1]);
        }
        lemma_scan_without_target(step(state, events.first()), events.drop_first());
    }
}

/// A document in which no block with the target tag opens gets no
/// replacement.
pub proof fn lemma_no_target_no_replacement(events: Seq<EventView>)
    requires
        forall|i: int| 0 <= i < events.len() ==> !opens_target(#[trigger] events[i]),
    ensures
        replacements(events) == Seq::<ReplacementView>::empty(),
{
    lemma_scan_without_target(initial_state(), events);
}

/// One more event leaves the replacements numbered by their position.
pub proof fn lemma_step_keeps_numbering(state: ScanState, event: EventView)
    requires
        numbered(state.records),
    ensures
        numbered(step(state, event).records),
{
    let next = step(state, event);
    if next.records != state.records {
        let source = state.mode->source;
        let index = state.records.len();
        assert(next.records == state.records.push(next.records.last()));
        assert forall|k: int| 0 <= k < next.records.len() implies is_fragment_for(
            (#[trigger] next.records[k]).text,
            k as nat,
        ) by {
            if k < state.records.len() {
                assert(next.records[k] == state.records[k]);
            } else {
                assert(fragment(index, source) == next.records[k].text);
            }
        }
    }
}

/// The identifiers count up from zero in document order: the replacement at
/// position `k` holds the fragment with index `k`, whatever the blocks hold.
pub proof fn lemma_scan_keeps_numbering(state: ScanState, events: Seq<EventView>)
    requires
        numbered(state.records),
    ensures
        numbered(scan_from(state, events).records),
    decreases events.len(),
{
    if events.len() > 0 {
        lemma_step_keeps_numbering(state, events.first());
        lemma_scan_keeps_numbering(step(state, events.first()), events.drop_first());
    }
}

/// The replacements of a whole document are numbered `0`, `1`, `2`, ... in
/// document order.
pub proof fn lemma_replacements_numbered(events: Seq<EventView>)
    ensures
        numbered(replacements(events)),
{
    lemma_scan_keeps_numbering(initial_state(), events);
}

/// A soft or a hard line break inside a block with the target tag adds exactly
/// one line feed to the block's source, and changes nothing else.
pub proof fn lemma_line_break_is_one_line_feed(state: ScanState, event: EventView)
    requires
        state.mode is InsideTarget,
        event.kind is SoftBreak || event.kind is HardBreak,
    ensures
        step(state, event) == (ScanState {
            mode: Mode::InsideTarget {
                start: state.mode->start,
                source: state.mode->source.push('\n'),
            },
            records: state.records,
        }),
{
}

proof fn lemma_scan_inside_other(state: ScanState, events: Seq<EventView>)
    requires
        state.mode is InsideOther,
        forall|i: int| 0 <= i < events.len() ==> !((#[trigger] events[i]).kind is BlockEnd),
    ensures
        scan_from(state, events) == state,
    decreases events.len(),
{
    if events.len() > 0 {
        assert(!(events[0].kind is BlockEnd));
        assert forall|i: int| 0 <= i < events.drop_first().len() implies !((
            #[trigger] events.drop_first()[i]).kind is BlockEnd) by {
            assert(events.drop_first()[i] == events[i + 1]);
        }
        lemma_scan_inside_other(state, events.drop_first());
    }
}

/// A fenced block with another tag does not interfere: met outside of any
/// block, its opening, whatever it holds and its closing leave the scan in
/// the state in which they found it, so the events after it give what they
/// would give without it.
pub proof fn lemma_other_block_is_skipped(
    state: ScanState,
    opening: EventView,
    inner: Seq<EventView>,
    closing: EventView,
    rest: Seq<EventView>,
)
    requires
        state.mode is Outside,
        opening.kind is BlockStart,
        !opens_target(opening),
        forall|i: int| 0 <= i < inner.len() ==> !((#[trigger] inner[i]).kind is BlockEnd),
        closing.kind is BlockEnd,
    ensures
        scan_from(state, seq![opening] + inner + seq![closing] + rest) == scan_from(state, rest),
{
    let inside = step(state, opening);
    let block = seq![opening] + inner + seq![closing];
    assert(inside == ScanState { mode: Mode::InsideOther, records: state.records });
    lemma_scan_concat(state, block, rest);
    lemma_scan_concat(state, seq![opening] + inner, seq![closing]);
    lemma_scan_concat(state, seq![opening], inner);
    assert(seq![opening].drop_first() =~= Seq::<EventView>::empty());
    assert(scan_from(state, seq![opening]) == scan_from(inside, Seq::<EventView>::empty()));
    lemma_scan_inside_other(inside, inner);
    assert(seq![closing].drop_first() =~= Seq::<EventView>::empty());
    assert(scan_from(inside, seq![closing]) == scan_from(
        step(inside, closing),
        Seq::<EventView>::empty(),
    ));
    assert(step(inside, closing) == state);
}

/// A block with the target tag opens at byte `at` of the document.
pub open spec fn target_opens_at(events: Seq<EventView>, at: int) -> bool {
    exists|i: int|
        0 <= i < events.len() && opens_target(#[trigger] events[i]) && events[i].start == at
}

/// A code block closes at byte `at` of the document.
pub open spec fn block_closes_at(events: Seq<EventView>, at: int) -> bool {
    exists|i: int|
        0 <= i < events.len() && (#[trigger] events[i]).kind is BlockEnd && events[i].end == at
}

/// Each replacement starts where a block with the target tag opens and ends
/// where a code block closes.
pub open spec fn cover_target_blocks(
    records: Seq<ReplacementView>,
    events: Seq<EventView>,
) -> bool {
    forall|k: int|
        0 <= k < records.len() ==> {
            &&& target_opens_at(events, (#[trigger] records[k]).start)
            &&& block_closes_at(events, records[k].end)
        }
}

proof fn lemma_scan_covers(state: ScanState, events: Seq<EventView>, from: int)
    requires
        0 <= from <= events.len(),
        cover_target_blocks(state.records, events),
        state.mode is InsideTarget ==> target_opens_at(events, state.mode->start),
    ensures
        cover_target_blocks(scan_from(state, events.skip(from)).records, events),
    decreases events.len() - from,
{
    if from < events.len() {
        let event = events[from];
        let next = step(state, event);
        assert(events.skip(from).first() == event);
        assert(events.skip(from).drop_first() =~= events.skip(from + 1));
        if next.mode is InsideTarget {
            if !(state.mode is InsideTarget) || next.mode->start != state.mode->start {
                assert(opens_target(events[from]) && events[from].start == next.mode->start);
            }
        }
        assert forall|k: int| 0 <= k < next.records.len() implies {
            &&& target_opens_at(events, (#[trigger] next.records[k]).start)
            &&& block_closes_at(events, next.records[k].end)
        } by {
            if k < state.records.len() {
                assert(next.records[k] == state.records[k]);
            } else {
                assert(events[from].kind is BlockEnd && events[from].end == next.records[k].end);
            }
        }
        lemma_scan_covers(next, events, from + 1);
    }
}

/// Nothing but blocks with the target tag is ever replaced: each replacement
/// of a document starts where such a block opens and ends where a code block
/// closes.
pub proof fn lemma_replacements_cover_target_blocks(events: Seq<EventView>)
    ensures
        cover_target_blocks(replacements(events), events),
{
    assert(events.skip(0) =~= events);
    lemma_scan_covers(initial_state(), events, 0);
}

} // verus!
