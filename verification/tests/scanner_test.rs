use mdbook_excalidraw::event::{EventKind, SpannedEvent};
use mdbook_excalidraw::fragment::render_fragment;
use mdbook_excalidraw::scan::{collect_replacements, Replacement, Scanner};

fn event(kind: EventKind, start: usize, end: usize) -> SpannedEvent {
    SpannedEvent { kind, start, end }
}

fn open(tag: &str, start: usize, end: usize) -> SpannedEvent {
    event(EventKind::BlockStart(tag.to_string()), start, end)
}

fn text(content: &str) -> SpannedEvent {
    event(EventKind::Text(content.to_string()), 0, 0)
}

fn close(start: usize, end: usize) -> SpannedEvent {
    event(EventKind::BlockEnd, start, end)
}

fn record(start: usize, end: usize, index: usize, source: &str) -> Replacement {
    Replacement { start, end, text: render_fragment(index, source) }
}

#[test]
fn no_events_no_replacements() {
    assert_eq!(collect_replacements(&vec![]), vec![]);
}

#[test]
fn one_target_block() {
    let events = vec![open("mermaid", 3, 20), text("graph TD\n"), text("A-->B\n"), close(3, 20)];
    assert_eq!(collect_replacements(&events), vec![record(3, 20, 0, "graph TD\nA-->B\n")]);
}

#[test]
fn span_runs_from_the_opening_to_the_closing() {
    let events = vec![open("mermaid", 5, 9), text("x"), close(11, 30)];
    assert_eq!(collect_replacements(&events), vec![record(5, 30, 0, "x")]);
}

#[test]
fn every_kind_of_content_is_gathered() {
    let events = vec![
        open("mermaid", 0, 50),
        text("a"),
        event(EventKind::InlineCode("b".to_string()), 1, 2),
        event(EventKind::RawMarkup("<c>".to_string()), 2, 5),
        event(EventKind::SoftBreak, 5, 6),
        text("d"),
        event(EventKind::HardBreak, 7, 8),
        event(EventKind::Other, 8, 9),
        text("e"),
        close(0, 50),
    ];
    assert_eq!(collect_replacements(&events), vec![record(0, 50, 0, "ab<c>\nd\ne")]);
}

#[test]
fn line_breaks_give_one_line_feed_each() {
    let events = vec![
        open("mermaid", 0, 9),
        event(EventKind::SoftBreak, 1, 2),
        event(EventKind::HardBreak, 2, 3),
        close(0, 9),
    ];
    let records = collect_replacements(&events);
    assert_eq!(records, vec![record(0, 9, 0, "\n\n")]);
    assert!(records[0].text.contains("data-mermaid=\"&#10;&#10;\""));
    assert!(records[0].text.contains("<code class=\"language-mermaid\">\n\n</code>"));
}

#[test]
fn empty_target_block_still_gives_a_replacement() {
    let events = vec![open("mermaid", 0, 14), close(0, 14)];
    let records = collect_replacements(&events);
    assert_eq!(records, vec![record(0, 14, 0, "")]);
    assert!(records[0].text.contains("data-mermaid=\"\""));
}

#[test]
fn blocks_are_numbered_in_order() {
    let mut events = Vec::new();
    for i in 0..12usize {
        events.push(open("mermaid", 10 * i, 10 * i + 5));
        events.push(text("same"));
        events.push(close(10 * i, 10 * i + 5));
    }
    let records = collect_replacements(&events);
    assert_eq!(records.len(), 12);
    for (i, found) in records.iter().enumerate() {
        assert_eq!(*found, record(10 * i, 10 * i + 5, i, "same"));
        assert!(found.text.contains(&format!("id=\"excalidraw-{}\"", i)));
    }
}

#[test]
fn other_tags_give_nothing() {
    for tag in ["rust", "", "Mermaid", "MERMAID", "mermaid ", " mermaid", "mermaid {theme=dark}", "mermaidx"] {
        let events = vec![open(tag, 0, 10), text("A-->B"), close(0, 10)];
        assert_eq!(collect_replacements(&events), vec![]);
    }
}

#[test]
fn other_block_does_not_interfere() {
    let with = vec![
        open("mermaid", 0, 5),
        text("one"),
        close(0, 5),
        open("rust", 6, 20),
        text("fn main() {}"),
        event(EventKind::SoftBreak, 0, 0),
        open("mermaid", 7, 8),
        text("not a diagram"),
        close(6, 20),
        open("mermaid", 21, 30),
        text("two"),
        close(21, 30),
    ];
    let without = vec![
        open("mermaid", 0, 5),
        text("one"),
        close(0, 5),
        open("mermaid", 21, 30),
        text("two"),
        close(21, 30),
    ];
    let expected = vec![record(0, 5, 0, "one"), record(21, 30, 1, "two")];
    assert_eq!(collect_replacements(&with), expected);
    assert_eq!(collect_replacements(&without), expected);
}

#[test]
fn content_outside_blocks_is_ignored() {
    let events = vec![
        text("before"),
        event(EventKind::InlineCode("code".to_string()), 0, 0),
        event(EventKind::SoftBreak, 0, 0),
        close(0, 3),
        open("mermaid", 10, 20),
        text("in"),
        close(10, 20),
        text("after"),
        close(30, 40),
    ];
    assert_eq!(collect_replacements(&events), vec![record(10, 20, 0, "in")]);
}

#[test]
fn block_that_never_closes_gives_nothing() {
    let events = vec![open("mermaid", 0, 5), text("one"), close(0, 5), open("mermaid", 7, 9), text("two")];
    assert_eq!(collect_replacements(&events), vec![record(0, 5, 0, "one")]);
}

#[test]
fn target_opening_inside_target_starts_over() {
    let events = vec![open("mermaid", 0, 5), text("one"), open("rust", 1, 2), text("+"), open("mermaid", 3, 4), text("two"), close(0, 9)];
    assert_eq!(collect_replacements(&events), vec![record(3, 9, 0, "two")]);
}

#[test]
fn scanner_step_by_step() {
    let mut scanner = Scanner::new();
    scanner.feed(&text("ignored"));
    scanner.feed(&open("mermaid", 2, 4));
    scanner.feed(&text("A"));
    scanner.feed(&event(EventKind::HardBreak, 0, 0));
    scanner.feed(&text("B"));
    scanner.feed(&close(2, 8));
    scanner.feed(&open("mermaid", 9, 12));
    assert_eq!(scanner.finish(), vec![record(2, 8, 0, "A\nB")]);
}
