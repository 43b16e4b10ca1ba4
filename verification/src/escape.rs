//! HTML escaping of diagram source, for element content and for attribute
//! values.

use vstd::prelude::*;


verus! {

pub open spec fn amp_entity() -> Seq<char> {
    seq!['&', 'a', 'm', 'p', ';']
}

pub open spec fn lt_entity() -> Seq<char> {
    seq!['&', 'l', 't', ';']
}

pub open spec fn gt_entity() -> Seq<char> {
    seq!['&', 'g', 't', ';']
}

pub open spec fn quot_entity() -> Seq<char> {
    seq!['&', 'q', 'u', 'o', 't', ';']
}

pub open spec fn apos_entity() -> Seq<char> {
    seq!['&', '#', '3', '9', ';']
}

/// The numeric character reference for a line feed.
pub open spec fn newline_entity() -> Seq<char> {
    seq!['&', '#', '1', '0', ';']
}

/// What one character of raw text becomes in escaped text.
pub open spec fn escape_char(c: char) -> Seq<char> {
    if c == '&' {
        amp_entity()
    } else if c == '<' {
        lt_entity()
    } else if c == '>' {
        gt_entity()
    } else if c == '"' {
        quot_entity()
    } else if c == '\'' {
        apos_entity()
    } else {
        seq![c]
    }
}

/// Raw text with each character escaped on its own, left to right.
pub open spec fn escaped(text: Seq<char>) -> Seq<char>
    decreases text.len(),
{
    if text.len() == 0 {
        Seq::empty()
    } else {
        escaped(text.drop_last()) + escape_char(text.last())
    }
}

/// Escapes the five characters that are special in HTML.
pub fn escape_html(s: &str) -> (output: String)
    ensures
        output@ == escaped(s@),
{
    let mut output = String::new();
    for c in it: s.chars()
        invariant
            it.seq() == s@,
            output@ == escaped(s@.take(it.index())),
    {
        proof {
            let i = it.index();
            assert(s@.take(i + 1).drop_last() =~= s@.take(i));
            assert(s@.take(i + 1).last() == c);
            reveal_strlit("&lt;");
            reveal_strlit("&gt;");
            reveal_strlit("&quot;");
            reveal_strlit("&amp;");
            reveal_strlit("&#39;");
            assert("&lt;"@ =~= lt_entity());
            assert("&gt;"@ =~= gt_entity());
            assert("&quot;"@ =~= quot_entity());
            assert("&amp;"@ =~= amp_entity());
            assert("&#39;"@ =~= apos_entity());
        }
        match c {
            '<' => output.append("&lt;"),
            '>' => output.append("&gt;"),
            '"' => output.append("&quot;"),
            '&' => output.append("&amp;"),
            '\'' => output.append("&#39;"),
            _ => {
                output.push(c);
                assert(output@ =~= escaped(s@.take(it.index())) + seq![c]);
            },
        }
    }
    proof {
        assert(s@.take(s@.len() as int) =~= s@);
    }
    output
}

/// What one character of escaped text becomes inside an attribute value.
pub open spec fn attribute_char(c: char) -> Seq<char> {
    if c == '\n' {
        newline_entity()
    } else {
        seq![c]
    }
}

/// Escaped text made fit for an attribute value: each line feed is written as
/// its numeric character reference, everything else stays.
pub open spec fn attribute_text(text: Seq<char>) -> Seq<char>
    decreases text.len(),
{
    if text.len() == 0 {
        Seq::empty()
    } else {
        attribute_text(text.drop_last()) + attribute_char(text.last())
    }
}

/// Rewrites each line feed as `&#10;`, so that the text can stand in an
/// attribute value.
pub fn encode_newlines(text: &str) -> (output: String)
    ensures
        output@ == attribute_text(text@),
{
    let mut output = String::new();
    for c in it: text.chars()
        invariant
            it.seq() == text@,
            output@ == attribute_text(text@.take(it.index())),
    {
        proof {
            let i = it.index();
            assert(text@.take(i + 1).drop_last() =~= text@.take(i));
            assert(text@.take(i + 1).last() == c);
            reveal_strlit("&#10;");
            assert("&#10;"@ =~= newline_entity());
        }
        if c == '\n' {
            output.append("&#10;");
        } else {
            output.push(c);
            assert(output@ =~= attribute_text(text@.take(it.index())) + seq![c]);
        }
    }
    proof {
        assert(text@.take(text@.len() as int) =~= text@);
    }
    output
}

/// The characters that must not occur in escaped text at all.
pub open spec fn is_markup_char(c: char) -> bool {
    c == '<' || c == '>' || c == '"' || c == '\''
}

/// `part` stands in `text` at offset `at`.
pub open spec fn occurs_at(text: Seq<char>, at: int, part: Seq<char>) -> bool {
    &&& 0 <= at
    &&& at + part.len() <= text.len()
    &&& text.subrange(at, at + part.len()) == part
}

/// One of the character references that escaping writes.
pub open spec fn is_entity(part: Seq<char>) -> bool {
    ||| part == amp_entity()
    ||| part == lt_entity()
    ||| part == gt_entity()
    ||| part == quot_entity()
    ||| part == apos_entity()
    ||| part == newline_entity()
}

/// A character reference starts in `text` at offset `at`.
pub open spec fn entity_at(text: Seq<char>, at: int) -> bool {
    ||| occurs_at(text, at, amp_entity())
    ||| occurs_at(text, at, lt_entity())
    ||| occurs_at(text, at, gt_entity())
    ||| occurs_at(text, at, quot_entity())
    ||| occurs_at(text, at, apos_entity())
    ||| occurs_at(text, at, newline_entity())
}

/// No `<`, `>`, `"` or `'` occurs in `text`, and every `&` in it starts a
/// character reference.
pub open spec fn safe_in_markup(text: Seq<char>) -> bool {
    forall|i: int|
        0 <= i < text.len() ==> {
            &&& !is_markup_char(#[trigger] text[i])
            &&& (text[i] == '&' ==> entity_at(text, i))
        }
}

/// `text` is safe in markup and holds no line feed.
pub open spec fn safe_in_attribute(text: Seq<char>) -> bool {
    &&& safe_in_markup(text)
    &&& forall|i: int| 0 <= i < text.len() ==> #[trigger] text[i] != '\n'
}

proof fn lemma_entity_at_extends(text: Seq<char>, more: Seq<char>, at: int)
    requires
        entity_at(text, at),
    ensures
        entity_at(text + more, at),
{
    let whole = text + more;
    assert forall|part: Seq<char>| occurs_at(text, at, part) implies occurs_at(whole, at, part) by {
        assert(whole.subrange(at, at + part.len()) =~= text.subrange(at, at + part.len()));
    }
}

proof fn lemma_safe_append_entity(text: Seq<char>, entity: Seq<char>)
    requires
        safe_in_markup(text),
        is_entity(entity),
    ensures
        safe_in_markup(text + entity),
{
    let whole = text + entity;
    assert forall|i: int| 0 <= i < whole.len() implies {
        &&& !is_markup_char(#[trigger] whole[i])
        &&& (whole[i] == '&' ==> entity_at(whole, i))
    } by {
        if i < text.len() {
            assert(whole[i] == text[i]);
            if text[i] == '&' {
                lemma_entity_at_extends(text, entity, i);
            }
        } else {
            assert(whole[i] == entity[i - text.len()]);
            if i == text.len() {
                assert(whole.subrange(i, i + entity.len()) =~= entity);
            }
        }
    }
}

proof fn lemma_entity_has_no_line_feed(entity: Seq<char>)
    requires
        is_entity(entity),
    ensures
        forall|j: int| 0 <= j < entity.len() ==> #[trigger] entity[j] != '\n',
{
}

proof fn lemma_safe_append_plain(text: Seq<char>, c: char)
    requires
        safe_in_markup(text),
        !is_markup_char(c),
        c != '&',
    ensures
        safe_in_markup(text + seq![c]),
{
    let whole = text + seq![c];
    assert forall|i: int| 0 <= i < whole.len() implies {
        &&& !is_markup_char(#[trigger] whole[i])
        &&& (whole[i] == '&' ==> entity_at(whole, i))
    } by {
        if i < text.len() {
            assert(whole[i] == text[i]);
            if text[i] == '&' {
                lemma_entity_at_extends(text, seq![c], i);
            }
        }
    }
}

/// Escaping goes character by character, so it distributes over
/// concatenation.
pub proof fn lemma_escaped_concat(a: Seq<char>, b: Seq<char>)
    ensures
        escaped(a + b) == escaped(a) + escaped(b),
    decreases b.len(),
{
    if b.len() == 0 {
        assert(a + b =~= a);
        assert(escaped(a) + escaped(b) =~= escaped(a));
    } else {
        lemma_escaped_concat(a, b.drop_last());
        assert((a + b).drop_last() =~= a + b.drop_last());
        assert((a + b).last() == b.last());
        assert(escaped(a + b) =~= escaped(a) + (escaped(b.drop_last()) + escape_char(b.last())));
    }
}

/// Writing line feeds as references goes character by character too.
pub proof fn lemma_attribute_concat(a: Seq<char>, b: Seq<char>)
    ensures
        attribute_text(a + b) == attribute_text(a) + attribute_text(b),
    decreases b.len(),
{
    if b.len() == 0 {
        assert(a + b =~= a);
        assert(attribute_text(a) + attribute_text(b) =~= attribute_text(a));
    } else {
        lemma_attribute_concat(a, b.drop_last());
        assert((a + b).drop_last() =~= a + b.drop_last());
        assert((a + b).last() == b.last());
        assert(attribute_text(a + b) =~= attribute_text(a) + (attribute_text(b.drop_last())
            + attribute_char(b.last())));
    }
}

proof fn lemma_attribute_keeps(text: Seq<char>)
    requires
        forall|i: int| 0 <= i < text.len() ==> #[trigger] text[i] != '\n',
    ensures
        attribute_text(text) == text,
    decreases text.len(),
{
    if text.len() > 0 {
        lemma_attribute_keeps(text.drop_last());
        assert(text.drop_last() + seq![text.last()] =~= text);
    }
}

proof fn lemma_escaped_one(c: char)
    ensures
        escaped(seq![c]) == escape_char(c),
        attribute_text(seq![c]) == attribute_char(c),
{
    assert(seq![c].drop_last() =~= Seq::<char>::empty());
    assert(seq![c].last() == c);
    assert(escaped(Seq::<char>::empty()) =~= Seq::<char>::empty());
    assert(attribute_text(Seq::<char>::empty()) =~= Seq::<char>::empty());
    assert(escaped(seq![c]) =~= escape_char(c));
    assert(attribute_text(seq![c]) =~= attribute_char(c));
}

/// Escaped text holds none of `<`, `>`, `"`, `'`, and each `&` in it starts one
/// of the references `&amp;`, `&lt;`, `&gt;`, `&quot;`, `&#39;`: whatever the
/// raw text was.
pub proof fn lemma_escaped_is_safe(raw: Seq<char>)
    ensures
        safe_in_markup(escaped(raw)),
    decreases raw.len(),
{
    if raw.len() > 0 {
        let c = raw.last();
        lemma_escaped_is_safe(raw.drop_last());
        if c == '&' || is_markup_char(c) {
            lemma_safe_append_entity(escaped(raw.drop_last()), escape_char(c));
        } else {
            lemma_safe_append_plain(escaped(raw.drop_last()), c);
        }
    }
}

/// The attribute copy of escaped text holds none of `<`, `>`, `"`, `'` and no
/// line feed, and each `&` in it starts a character reference: whatever the raw
/// text was.
pub proof fn lemma_attribute_is_safe(raw: Seq<char>)
    ensures
        safe_in_attribute(attribute_text(escaped(raw))),
    decreases raw.len(),
{
    if raw.len() > 0 {
        let c = raw.last();
        let before = attribute_text(escaped(raw.drop_last()));
        lemma_attribute_is_safe(raw.drop_last());
        lemma_attribute_concat(escaped(raw.drop_last()), escape_char(c));
        if c == '&' || is_markup_char(c) {
            lemma_entity_has_no_line_feed(escape_char(c));
            lemma_attribute_keeps(escape_char(c));
            lemma_safe_append_entity(before, escape_char(c));
        } else if c == '\n' {
            lemma_escaped_one(c);
            lemma_safe_append_entity(before, newline_entity());
        } else {
            lemma_escaped_one(c);
            lemma_safe_append_plain(before, c);
        }
        let after = attribute_text(escaped(raw));
        assert forall|i: int| 0 <= i < after.len() implies #[trigger] after[i] != '\n' by {
            if i < before.len() {
                assert(after[i] == before[i]);
            } else {
                assert(after[i] == attribute_text(escape_char(c))[i - before.len()]);
            }
        }
    }
}

/// A line feed in the raw text stands in the attribute copy as `&#10;`, between
/// the copies of what came before it and of what came after.
pub proof fn lemma_line_feed_in_attribute(before: Seq<char>, after: Seq<char>)
    ensures
        attribute_text(escaped(before.push('\n') + after)) == attribute_text(escaped(before))
            + newline_entity() + attribute_text(escaped(after)),
{
    lemma_escaped_concat(before.push('\n'), after);
    assert(before.push('\n') =~= before + seq!['\n']);
    lemma_escaped_concat(before, seq!['\n']);
    lemma_escaped_one('\n');
    lemma_attribute_concat(escaped(before) + seq!['\n'], escaped(after));
    lemma_attribute_concat(escaped(before), seq!['\n']);
}

proof fn lemma_escaped_first(text: Seq<char>)
    requires
        text.len() > 0,
    ensures
        escaped(text) == escape_char(text.first()) + escaped(text.drop_first()),
        escaped(text).len() > 0,
{
    assert(text =~= seq![text.first()] + text.drop_first());
    lemma_escaped_concat(seq![text.first()], text.drop_first());
    lemma_escaped_one(text.first());
}

/// Escaping loses nothing: two raw texts with the same escaped text are the
/// same text.
pub proof fn lemma_escaped_injective(a: Seq<char>, b: Seq<char>)
    requires
        escaped(a) == escaped(b),
    ensures
        a == b,
    decreases a.len(),
{
    if a.len() == 0 || b.len() == 0 {
        if a.len() > 0 {
            lemma_escaped_first(a);
        }
        if b.len() > 0 {
            lemma_escaped_first(b);
        }
        assert(a =~= b);
    } else {
        lemma_escaped_first(a);
        lemma_escaped_first(b);
        let x = escape_char(a.first());
        let y = escape_char(b.first());
        let after_x = escaped(a.drop_first());
        let after_y = escaped(b.drop_first());
        assert((x + after_x)[0] == x[0]);
        assert((y + after_y)[0] == y[0]);
        if x[0] == '&' {
            assert((x + after_x)[1] == x[1]);
            assert((y + after_y)[1] == y[1]);
        }
        assert(a.first() == b.first());
        assert(after_x =~= (x + after_x).subrange(x.len() as int, (x + after_x).len() as int));
        assert(after_y =~= (y + after_y).subrange(y.len() as int, (y + after_y).len() as int));
        lemma_escaped_injective(a.drop_first(), b.drop_first());
        assert(a =~= seq![a.first()] + a.drop_first());
        assert(b =~= seq![b.first()] + b.drop_first());
    }
}

} // verus!
