//! Putting the replacements into the document: everything between them is
//! copied as it stands.

use vstd::prelude::*;
use vstd::utf8::{
    is_char_boundary, is_char_boundary_iff_not_is_continuation_byte,
    is_char_boundary_start_end_of_seq, valid_utf8, valid_utf8_split, encode_utf8_valid_utf8,
};
use crate::scan::{replacement_views, Replacement, ReplacementView};
use crate::text::{byte_len, lemma_utf8_concat, utf8};

verus! {

/// The replacements can be put into the document: each span lies in it, starts
/// and ends between two characters, and begins no earlier than the span before
/// it ends.
pub open spec fn spans_fit(doc: Seq<u8>, records: Seq<ReplacementView>) -> bool {
    &&& forall|i: int|
        0 <= i < records.len() ==> {
            &&& 0 <= (#[trigger] records[i]).start <= records[i].end <= doc.len()
            &&& is_char_boundary(doc, records[i].start)
            &&& is_char_boundary(doc, records[i].end)
        }
    &&& forall|i: int| 0 < i < records.len() ==> records[i - 1].end <= (#[trigger] records[i]).start
}

/// The offset in the document up to which the replacements account for it.
pub open spec fn cursor_after(records: Seq<ReplacementView>) -> int {
    if records.len() == 0 {
        0
    } else {
        records.last().end
    }
}

/// The output up to the end of the last replacement: for each replacement in
/// turn, the document from the end of the one before up to its start, then
/// its text.
pub open spec fn spliced_prefix(doc: Seq<u8>, records: Seq<ReplacementView>) -> Seq<u8>
    decreases records.len(),
{
    if records.len() == 0 {
        Seq::empty()
    } else {
        spliced_prefix(doc, records.drop_last()) + doc.subrange(
            cursor_after(records.drop_last()),
            records.last().start,
        ) + utf8(records.last().text)
    }
}

/// The whole output: the part up to the end of the last replacement, then the
/// rest of the document.
pub open spec fn spliced(doc: Seq<u8>, records: Seq<ReplacementView>) -> Seq<u8> {
    spliced_prefix(doc, records) + doc.subrange(cursor_after(records), doc.len() as int)
}

proof fn lemma_boundary_in_prefix(bytes: Seq<u8>, from: int, to: int)
    requires
        valid_utf8(bytes),
        0 <= from <= to <= bytes.len(),
        is_char_boundary(bytes, from),
        is_char_boundary(bytes, to),
    ensures
        valid_utf8(bytes.subrange(0, to)),
        is_char_boundary(bytes.subrange(0, to), from),
{
    let head = bytes.subrange(0, to);
    valid_utf8_split(bytes, to);
    if from == to {
        is_char_boundary_start_end_of_seq(head);
    } else {
        is_char_boundary_iff_not_is_continuation_byte(bytes, from);
        is_char_boundary_iff_not_is_continuation_byte(head, from);
    }
}

/// The part of `content` between two byte offsets.
fn slice_between<'a>(content: &'a str, from: usize, to: usize) -> (part: &'a str)
    requires
        from <= to <= utf8(content@).len(),
        is_char_boundary(utf8(content@), from as int),
        is_char_boundary(utf8(content@), to as int),
    ensures
        utf8(part@) == utf8(content@).subrange(from as int, to as int),
{
    proof {
        encode_utf8_valid_utf8(content@);
        lemma_boundary_in_prefix(utf8(content@), from as int, to as int);
    }
    let (head, _) = content.split_at(to);
    let (_, part) = head.split_at(from);
    assert(utf8(part@) =~= utf8(content@).subrange(from as int, to as int));
    part
}

/// Whether the replacements can be put into the document.
pub fn check_spans(content: &str, records: &Vec<Replacement>) -> (fit: bool)
    ensures
        fit == spans_fit(utf8(content@), replacement_views(records@)),
{
    let ghost doc = utf8(content@);
    let ghost views = replacement_views(records@);
    let len = byte_len(content);
    let mut cursor: usize = 0;
    let mut k: usize = 0;
    while k < records.len()
        invariant
            0 <= k <= records.len(),
            doc == utf8(content@),
            views == replacement_views(records@),
            len == doc.len(),
            spans_fit(doc, views.take(k as int)),
            cursor == cursor_after(views.take(k as int)),
        decreases records.len() - k,
    {
        let record = &records[k];
        assert(views[k as int] == record@);
        if !(cursor <= record.start && record.start <= record.end && record.end <= len
            && content.is_char_boundary(record.start) && content.is_char_boundary(record.end)) {
            proof {
                if k > 0 {
                    assert(views.take(k as int).last() == views[k - 1]);
                }
            }
            return false;
        }
        proof {
            let before = views.take(k as int);
            let now = views.take(k + 1);
            assert forall|i: int| 0 <= i < now.len() implies {
                &&& 0 <= (#[trigger] now[i]).start <= now[i].end <= doc.len()
                &&& is_char_boundary(doc, now[i].start)
                &&& is_char_boundary(doc, now[i].end)
            } by {
                if i < k {
                    assert(now[i] == before[i]);
                }
            }
            assert forall|i: int| 0 < i < now.len() implies now[i - 1].end <= (#[trigger] now[i]).start by {
                if i < k {
                    assert(now[i] == before[i]);
                    assert(now[i - 1] == before[i - 1]);
                } else {
                    assert(before.last() == now[i - 1]);
                }
            }
        }
        cursor = record.end;
        k += 1;
    }
    assert(views.take(k as int) =~= views);
    true
}

/// Writes the document with each replaced span given way to its replacement.
pub fn splice(content: &str, records: &Vec<Replacement>) -> (output: String)
    requires
        spans_fit(utf8(content@), replacement_views(records@)),
    ensures
        utf8(output@) == spliced(utf8(content@), replacement_views(records@)),
{
    let ghost doc = utf8(content@);
    let ghost views = replacement_views(records@);
    let mut output = String::new();
    let mut cursor: usize = 0;
    let mut k: usize = 0;
    proof {
        encode_utf8_valid_utf8(content@);
        is_char_boundary_start_end_of_seq(doc);
        assert(utf8(output@) =~= Seq::<u8>::empty());
    }
    while k < records.len()
        invariant
            0 <= k <= records.len(),
            doc == utf8(content@),
            views == replacement_views(records@),
            spans_fit(doc, views),
            valid_utf8(doc),
            cursor == cursor_after(views.take(k as int)),
            cursor <= doc.len(),
            is_char_boundary(doc, cursor as int),
            utf8(output@) == spliced_prefix(doc, views.take(k as int)),
        decreases records.len() - k,
    {
        let record = &records[k];
        proof {
            assert(views[k as int] == record@);
            if k > 0 {
                assert(views.take(k as int).last() == views[k - 1]);
            }
            assert(views.take(k + 1).drop_last() =~= views.take(k as int));
            assert(views.take(k + 1).last() == views[k as int]);
        }
        let gap = slice_between(content, cursor, record.start);
        proof {
            lemma_utf8_concat(output@, gap@);
            lemma_utf8_concat(output@ + gap@, record.text@);
        }
        output.append(gap);
        output.append(record.text.as_str());
        cursor = record.end;
        k += 1;
    }
    proof {
        assert(views.take(k as int) =~= views);
    }
    let len = byte_len(content);
    proof {
        if k > 0 {
            assert(views.last() == views[k - 1]);
        }
    }
    let rest = slice_between(content, cursor, len);
    proof {
        lemma_utf8_concat(output@, rest@);
    }
    output.append(rest);
    output
}

/// By how many bytes a replacement makes the document longer.
pub open spec fn growth(record: ReplacementView) -> int {
    utf8(record.text).len() - (record.end - record.start)
}

/// By how many bytes all the replacements together make the document longer.
pub open spec fn total_growth(records: Seq<ReplacementView>) -> int
    decreases records.len(),
{
    if records.len() == 0 {
        0
    } else {
        total_growth(records.drop_last()) + growth(records.last())
    }
}

/// By how many bytes the replacements that end at or before offset `at` make
/// the document longer: how far the byte at `at` is moved.
pub open spec fn growth_before(records: Seq<ReplacementView>, at: int) -> int
    decreases records.len(),
{
    if records.len() == 0 {
        0
    } else {
        growth_before(records.drop_last(), at) + if records.last().end <= at {
            growth(records.last())
        } else {
            0
        }
    }
}

/// The byte at offset `at` lies in none of the replaced spans.
pub open spec fn outside_spans(records: Seq<ReplacementView>, at: int) -> bool {
    forall|i: int|
        0 <= i < records.len() ==> !((#[trigger] records[i]).start <= at < records[i].end)
}

proof fn lemma_fit_take(doc: Seq<u8>, records: Seq<ReplacementView>, n: int)
    requires
        spans_fit(doc, records),
        0 <= n <= records.len(),
    ensures
        spans_fit(doc, records.take(n)),
        0 <= cursor_after(records.take(n)) <= doc.len(),
        n < records.len() ==> cursor_after(records.take(n)) <= records[n].start,
{
    let part = records.take(n);
    assert forall|i: int| 0 <= i < part.len() implies {
        &&& 0 <= (#[trigger] part[i]).start <= part[i].end <= doc.len()
        &&& is_char_boundary(doc, part[i].start)
        &&& is_char_boundary(doc, part[i].end)
    } by {
        assert(part[i] == records[i]);
    }
    assert forall|i: int| 0 < i < part.len() implies part[i - 1].end <= (#[trigger] part[i]).start by {
        assert(part[i] == records[i]);
        assert(part[i - 1] == records[i - 1]);
    }
    if n > 0 {
        assert(part.last() == records[n - 1]);
        if n < records.len() {
            assert(records[n - 1].end <= records[n].start);
        }
    } else if n < records.len() {
        assert(0 <= records[n].start);
    }
}

proof fn lemma_fit_drop_last(doc: Seq<u8>, records: Seq<ReplacementView>)
    requires
        spans_fit(doc, records),
        records.len() > 0,
    ensures
        spans_fit(doc, records.drop_last()),
        0 <= cursor_after(records.drop_last()) <= records.last().start,
        records.last().start <= records.last().end <= doc.len(),
{
    assert(records.drop_last() =~= records.take(records.len() - 1));
    lemma_fit_take(doc, records, records.len() - 1);
    assert(records.last() == records[records.len() - 1]);
}

proof fn lemma_prefix_len(doc: Seq<u8>, records: Seq<ReplacementView>)
    requires
        spans_fit(doc, records),
    ensures
        spliced_prefix(doc, records).len() == cursor_after(records) + total_growth(records),
        0 <= cursor_after(records) <= doc.len(),
    decreases records.len(),
{
    if records.len() > 0 {
        lemma_fit_drop_last(doc, records);
        lemma_prefix_len(doc, records.drop_last());
    }
}

/// The output is as long as the document, less the replaced spans, plus the
/// replacements.
pub proof fn lemma_spliced_len(doc: Seq<u8>, records: Seq<ReplacementView>)
    requires
        spans_fit(doc, records),
    ensures
        spliced(doc, records).len() == doc.len() + total_growth(records),
{
    lemma_prefix_len(doc, records);
}

proof fn lemma_growth_before_all(doc: Seq<u8>, records: Seq<ReplacementView>, at: int)
    requires
        spans_fit(doc, records),
        cursor_after(records) <= at,
    ensures
        growth_before(records, at) == total_growth(records),
    decreases records.len(),
{
    if records.len() > 0 {
        lemma_fit_drop_last(doc, records);
        lemma_growth_before_all(doc, records.drop_last(), at);
    }
}

proof fn lemma_outside_drop_last(records: Seq<ReplacementView>, at: int)
    requires
        outside_spans(records, at),
        records.len() > 0,
    ensures
        outside_spans(records.drop_last(), at),
        !(records.last().start <= at < records.last().end),
{
    assert forall|i: int| 0 <= i < records.drop_last().len() implies !((
        #[trigger] records.drop_last()[i]).start <= at < records.drop_last()[i].end) by {
        assert(records.drop_last()[i] == records[i]);
    }
    assert(records.last() == records[records.len() - 1]);
}

proof fn lemma_kept_in_prefix(doc: Seq<u8>, records: Seq<ReplacementView>, at: int)
    requires
        spans_fit(doc, records),
        outside_spans(records, at),
        0 <= at < cursor_after(records),
    ensures
        0 <= at + growth_before(records, at) < spliced_prefix(doc, records).len(),
        spliced_prefix(doc, records)[at + growth_before(records, at)] == doc[at],
    decreases records.len(),
{
    let rest = records.drop_last();
    let last = records.last();
    lemma_fit_drop_last(doc, records);
    lemma_outside_drop_last(records, at);
    lemma_prefix_len(doc, rest);
    let gap = doc.subrange(cursor_after(rest), last.start);
    if at < cursor_after(rest) {
        lemma_kept_in_prefix(doc, rest, at);
    } else {
        lemma_growth_before_all(doc, rest, at);
        assert(gap[at - cursor_after(rest)] == doc[at]);
    }
}

/// Every byte of the document that lies in no replaced span stands in the
/// output unchanged, moved by the growth of the replacements before it.
pub proof fn lemma_bytes_outside_spans_kept(doc: Seq<u8>, records: Seq<ReplacementView>, at: int)
    requires
        spans_fit(doc, records),
        outside_spans(records, at),
        0 <= at < doc.len(),
    ensures
        0 <= at + growth_before(records, at) < spliced(doc, records).len(),
        spliced(doc, records)[at + growth_before(records, at)] == doc[at],
{
    lemma_prefix_len(doc, records);
    if at < cursor_after(records) {
        lemma_kept_in_prefix(doc, records, at);
    } else {
        lemma_growth_before_all(doc, records, at);
        let tail = doc.subrange(cursor_after(records), doc.len() as int);
        assert(tail[at - cursor_after(records)] == doc[at]);
    }
}

proof fn lemma_prefix_extends(doc: Seq<u8>, records: Seq<ReplacementView>, n: int)
    requires
        0 <= n <= records.len(),
    ensures
        spliced_prefix(doc, records.take(n)).len() <= spliced_prefix(doc, records).len(),
        spliced_prefix(doc, records).subrange(
            0,
            spliced_prefix(doc, records.take(n)).len() as int,
        ) == spliced_prefix(doc, records.take(n)),
    decreases records.len(),
{
    if n == records.len() {
        assert(records.take(n) =~= records);
        assert(spliced_prefix(doc, records).subrange(
            0,
            spliced_prefix(doc, records).len() as int,
        ) =~= spliced_prefix(doc, records));
    } else {
        let rest = records.drop_last();
        assert(records.take(n) =~= rest.take(n));
        lemma_prefix_extends(doc, rest, n);
        let part = spliced_prefix(doc, rest.take(n));
        assert(spliced_prefix(doc, records).subrange(0, part.len() as int) =~= spliced_prefix(
            doc,
            rest,
        ).subrange(0, part.len() as int));
    }
}

/// Each replacement's text stands in the output whole, at the start of its
/// span moved by the growth of the replacements before it.
pub proof fn lemma_replacement_placed(doc: Seq<u8>, records: Seq<ReplacementView>, k: int)
    requires
        spans_fit(doc, records),
        0 <= k < records.len(),
    ensures
        ({
            let at = records[k].start + total_growth(records.take(k));
            let text = utf8(records[k].text);
            &&& 0 <= at
            &&& at + text.len() <= spliced(doc, records).len()
            &&& spliced(doc, records).subrange(at, at + text.len()) == text
        }),
{
    let before = records.take(k);
    let upto = records.take(k + 1);
    let at = records[k].start + total_growth(before);
    let text = utf8(records[k].text);
    lemma_fit_take(doc, records, k);
    lemma_fit_take(doc, records, k + 1);
    lemma_prefix_len(doc, before);
    lemma_prefix_extends(doc, records, k + 1);
    assert(upto.drop_last() =~= before);
    assert(upto.last() == records[k]);
    let head = spliced_prefix(doc, upto);
    let gap = doc.subrange(cursor_after(before), records[k].start);
    assert(head == spliced_prefix(doc, before) + gap + text);
    assert(head.subrange(at, at + text.len()) =~= text);
    let whole = spliced(doc, records);
    assert(whole.subrange(0, head.len() as int) =~= head);
    assert(whole.subrange(at, at + text.len()) =~= head.subrange(at, at + text.len()));
}

} // verus!
