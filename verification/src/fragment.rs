//! The markup that stands in place of one diagram block.

use vstd::prelude::*;
use crate::escape::{
    attribute_text, encode_newlines, escape_html, escaped, lemma_attribute_is_safe,
    lemma_escaped_is_safe, occurs_at, safe_in_attribute, safe_in_markup,
};

verus! {

/// Up to the identifier of the container.
pub const WRAPPER_OPEN: &'static str = "<div class=\"excalidraw-wrapper\" id=\"";

/// What every identifier starts with.
pub const ID_PREFIX: &'static str = "excalidraw-";

/// Between the identifier and the attribute copy of the source.
pub const CONTAINER_OPEN: &'static str =
    "\">\n  <div class=\"excalidraw-container\" data-mermaid=\"";

/// Between the attribute copy and the visible copy of the source.
pub const SOURCE_OPEN: &'static str =
    "\">\n    <div class=\"excalidraw-loading\">Loading Excalidraw diagram...</div>\n  </div>\n  <details class=\"excalidraw-source\">\n    <summary>View Mermaid Source</summary>\n    <pre><code class=\"language-mermaid\">";

/// After the visible copy of the source.
pub const WRAPPER_CLOSE: &'static str = "</code></pre>\n  </details>\n</div>";

/// The character of one decimal digit.
pub open spec fn digit(d: nat) -> char {
    if d == 0 {
        '0'
    } else if d == 1 {
        '1'
    } else if d == 2 {
        '2'
    } else if d == 3 {
        '3'
    } else if d == 4 {
        '4'
    } else if d == 5 {
        '5'
    } else if d == 6 {
        '6'
    } else if d == 7 {
        '7'
    } else if d == 8 {
        '8'
    } else {
        '9'
    }
}

/// A number in decimal, without sign or leading zeros.
pub open spec fn decimal(n: nat) -> Seq<char>
    decreases n,
{
    if n < 10 {
        seq![digit(n)]
    } else {
        decimal(n / 10).push(digit(n % 10))
    }
}

/// The identifier of the container of the block with this index.
pub open spec fn identifier(index: nat) -> Seq<char> {
    ID_PREFIX@ + decimal(index)
}

/// The fragment for the block with this index and this raw source.
pub open spec fn fragment(index: nat, source: Seq<char>) -> Seq<char> {
    WRAPPER_OPEN@ + identifier(index) + CONTAINER_OPEN@ + attribute_text(escaped(source))
        + SOURCE_OPEN@ + escaped(source) + WRAPPER_CLOSE@
}

fn digit_char(d: usize) -> (c: char)
    requires
        d < 10,
    ensures
        c == digit(d as nat),
{
    match d {
        0 => '0',
        1 => '1',
        2 => '2',
        3 => '3',
        4 => '4',
        5 => '5',
        6 => '6',
        7 => '7',
        8 => '8',
        _ => '9',
    }
}

fn push_decimal(output: &mut String, n: usize)
    ensures
        final(output)@ == old(output)@ + decimal(n as nat),
    decreases n,
{
    if n >= 10 {
        push_decimal(output, n / 10);
    }
    output.push(digit_char(n % 10));
    assert(output@ =~= old(output)@ + decimal(n as nat));
}

/// Writes the fragment for one block: the container with its identifier, the
/// escaped source as an attribute value, and the escaped source once more for
/// the reader.
pub fn render_fragment(index: usize, source: &str) -> (output: String)
    ensures
        output@ == fragment(index as nat, source@),
{
    let visible = escape_html(source);
    let attribute = encode_newlines(visible.as_str());
    let mut output = String::new();
    output.append(WRAPPER_OPEN);
    output.append(ID_PREFIX);
    push_decimal(&mut output, index);
    output.append(CONTAINER_OPEN);
    output.append(attribute.as_str());
    output.append(SOURCE_OPEN);
    output.append(visible.as_str());
    output.append(WRAPPER_CLOSE);
    assert(output@ =~= fragment(index as nat, source@));
    output
}

/// Two numbers with the same decimal form are the same number, so two blocks
/// never share an identifier.
pub proof fn lemma_decimal_injective(a: nat, b: nat)
    requires
        decimal(a) == decimal(b),
    ensures
        a == b,
    decreases a,
{
    if a < 10 && b < 10 {
        assert(decimal(a)[0] == digit(a));
        assert(decimal(b)[0] == digit(b));
        lemma_digit_injective(a, b);
    } else if a < 10 {
        lemma_decimal_len(b / 10);
        assert(decimal(b).len() >= 2);
    } else if b < 10 {
        lemma_decimal_len(a / 10);
        assert(decimal(a).len() >= 2);
    } else {
        let x = decimal(a / 10);
        let y = decimal(b / 10);
        assert(x.push(digit(a % 10)).drop_last() =~= x);
        assert(y.push(digit(b % 10)).drop_last() =~= y);
        assert(x.push(digit(a % 10)).last() == digit(a % 10));
        assert(y.push(digit(b % 10)).last() == digit(b % 10));
        lemma_decimal_injective(a / 10, b / 10);
        lemma_digit_injective(a % 10, b % 10);
    }
}

proof fn lemma_digit_injective(a: nat, b: nat)
    requires
        a < 10,
        b < 10,
        digit(a) == digit(b),
    ensures
        a == b,
{
}

proof fn lemma_decimal_len(n: nat)
    ensures
        decimal(n).len() >= 1,
    decreases n,
{
    if n >= 10 {
        lemma_decimal_len(n / 10);
    }
}

/// Blocks with different indices get different identifiers.
pub proof fn lemma_identifier_injective(a: nat, b: nat)
    requires
        identifier(a) == identifier(b),
    ensures
        a == b,
{
    let p = ID_PREFIX@;
    assert(identifier(a).subrange(p.len() as int, identifier(a).len() as int) =~= decimal(a));
    assert(identifier(b).subrange(p.len() as int, identifier(b).len() as int) =~= decimal(b));
    lemma_decimal_injective(a, b);
}

/// Where the parts of a fragment stand in it: the identifier right after the
/// opening of the container, then the attribute copy of the source, then the
/// visible copy. Neither copy holds a character that would end the place it
/// stands in.
pub proof fn lemma_fragment_parts(index: nat, source: Seq<char>)
    ensures
        occurs_at(fragment(index, source), WRAPPER_OPEN@.len() as int, identifier(index)),
        occurs_at(
            fragment(index, source),
            (WRAPPER_OPEN@ + identifier(index) + CONTAINER_OPEN@).len() as int,
            attribute_text(escaped(source)),
        ),
        occurs_at(
            fragment(index, source),
            (WRAPPER_OPEN@ + identifier(index) + CONTAINER_OPEN@ + attribute_text(escaped(source))
                + SOURCE_OPEN@).len() as int,
            escaped(source),
        ),
        safe_in_attribute(attribute_text(escaped(source))),
        safe_in_markup(escaped(source)),
{
    let whole = fragment(index, source);
    let id = identifier(index);
    let attribute = attribute_text(escaped(source));
    let visible = escaped(source);
    let a = WRAPPER_OPEN@.len() as int;
    let b = (WRAPPER_OPEN@ + id + CONTAINER_OPEN@).len() as int;
    let c = (WRAPPER_OPEN@ + id + CONTAINER_OPEN@ + attribute + SOURCE_OPEN@).len() as int;
    assert(whole.subrange(a, a + id.len()) =~= id);
    assert(whole.subrange(b, b + attribute.len()) =~= attribute);
    assert(whole.subrange(c, c + visible.len()) =~= visible);
    lemma_attribute_is_safe(source);
    lemma_escaped_is_safe(source);
}

} // verus!
