use mdbook_excalidraw::add_excalidraw;
use mdbook_excalidraw::fragment::render_fragment;
use mdbook_excalidraw::ExcalidrawPreprocessor;

#[test]
fn document_without_target_blocks_is_unchanged() {
    let documents = [
        "",
        "\n",
        "plain text",
        "# Title\n\nSome *emphasis*, `inline code` and a [link](http://example.com).\n",
        "```rust\nfn main() {\n    println!(\"Hello\");\n}\n```",
        "```\nno tag at all\n```\n",
        "~~~python\nprint('<b>')\n~~~\n",
        "    indented code with mermaid inside\n",
        "<div class=\"excalidraw-wrapper\">raw html & more</div>\n",
        "- a list\n  ```text\n  A-->B\n  ```\n- na\u{ef}ve \u{2603} \u{1f600}\n",
        "```Mermaid\ngraph TD\n```\n",
        "```mermaid {theme=dark}\ngraph TD\n```\n",
        "text with mermaid in it and `mermaid` too\n",
    ];
    for document in documents {
        assert_eq!(add_excalidraw(document).unwrap(), document);
    }
}

#[test]
fn single_block_with_arrow() {
    let result = add_excalidraw("```mermaid\nA-->B\n```").unwrap();
    assert_eq!(result, render_fragment(0, "A-->B\n"));
    assert!(result.contains("id=\"excalidraw-0\""));
    assert!(result.contains("data-mermaid=\"A--&gt;B&#10;\""));
    assert!(result.contains("<code class=\"language-mermaid\">A--&gt;B\n</code>"));
}

#[test]
fn text_around_a_block_is_kept() {
    let input = "# Test \u{2603}\n\n```mermaid\ngraph TD\n    A-->B\n```\n\nSome text";
    let result = add_excalidraw(input).unwrap();
    let fragment = render_fragment(0, "graph TD\n    A-->B\n");
    let head = "# Test \u{2603}\n\n";
    assert!(result.starts_with(head));
    assert!(result[head.len()..].starts_with(&fragment));
    let tail = &result[head.len() + fragment.len()..];
    assert!(tail.ends_with("\nSome text"));
    assert!(input.ends_with(tail));
    assert!(!result.contains("```"));
}

#[test]
fn two_blocks_get_identifiers_in_order() {
    let input = "```mermaid\nfirst\n```\n\nbetween\n\n```mermaid\nsecond\n```\n";
    let result = add_excalidraw(input).unwrap();
    let first = result.find("id=\"excalidraw-0\"").unwrap();
    let second = result.find("id=\"excalidraw-1\"").unwrap();
    assert!(first < second);
    assert!(!result.contains("excalidraw-2"));
    let one = result.find(&render_fragment(0, "first\n")).unwrap();
    let between = result.find("between").unwrap();
    let two = result.find(&render_fragment(1, "second\n")).unwrap();
    assert!(one < between && between < two);
}

#[test]
fn many_blocks_count_up() {
    let mut input = String::new();
    for i in 0..12 {
        input.push_str(&format!("Block {}\n\n```mermaid\nsame\n```\n\n", i));
    }
    let result = add_excalidraw(&input).unwrap();
    let mut last = 0;
    for i in 0..12 {
        let at = result.find(&format!("id=\"excalidraw-{}\"", i)).unwrap();
        assert!(i == 0 || last < at);
        last = at;
        assert!(result.contains(&format!("Block {}\n\n<div", i)));
    }
    assert!(!result.contains("id=\"excalidraw-12\""));
}

#[test]
fn script_tag_and_apostrophe_are_escaped() {
    let input = "```mermaid\nA[\"<script>alert('x')</script>\"]\n```";
    let result = add_excalidraw(input).unwrap();
    assert!(result.contains("&lt;script&gt;"));
    assert!(result.contains("&#39;"));
    assert!(!result.contains("<script>"));
    assert_eq!(result, render_fragment(0, "A[\"<script>alert('x')</script>\"]\n"));
}

#[test]
fn empty_block_gives_a_fragment() {
    let result = add_excalidraw("```mermaid\n```").unwrap();
    assert_eq!(result, render_fragment(0, ""));
    assert!(result.contains("data-mermaid=\"\""));
}

#[test]
fn other_language_block_is_byte_identical() {
    let rust = "```rust\nfn main() {\n    let s = \"<b> & 'c'\";\n}\n```\n";
    let input = format!("{}\n```mermaid\nA-->B\n```\n\n{}", rust, rust);
    let result = add_excalidraw(&input).unwrap();
    assert!(result.starts_with(rust));
    assert!(result.ends_with(rust));
    assert_eq!(result.matches(rust).count(), 2);
    assert_eq!(result.matches("excalidraw-wrapper").count(), 1);
}

#[test]
fn tilde_fence_with_target_tag() {
    let result = add_excalidraw("~~~mermaid\nA-->B\n~~~\n").unwrap();
    assert!(result.contains(&render_fragment(0, "A-->B\n")));
    assert!(!result.contains("~~~"));
}

#[test]
fn several_lines_are_joined_by_references() {
    let result = add_excalidraw("```mermaid\ngraph TD\n    A-->B\n    B-->C\n```").unwrap();
    assert!(result.contains("data-mermaid=\"graph TD&#10;    A--&gt;B&#10;    B--&gt;C&#10;\""));
    assert!(result.contains(">graph TD\n    A--&gt;B\n    B--&gt;C\n</code>"));
}

#[test]
fn rewriting_twice_gives_the_same() {
    let input = "a\n\n```mermaid\nA-->B\n```\n\nb\n";
    assert_eq!(add_excalidraw(input).unwrap(), add_excalidraw(input).unwrap());
}

#[test]
fn preprocessor_name_and_renderers() {
    let preprocessor = ExcalidrawPreprocessor;
    assert_eq!(preprocessor.name(), "excalidraw");
    assert!(preprocessor.supports_renderer("html"));
    assert!(preprocessor.supports_renderer("markdown"));
    assert!(!preprocessor.supports_renderer("pdf"));
    assert!(!preprocessor.supports_renderer("HTML"));
    assert!(!preprocessor.supports_renderer(""));
    assert!(!preprocessor.supports_renderer("html "));
}

#[test]
fn preprocessor_rewrites_a_chapter_in_place() {
    let preprocessor = ExcalidrawPreprocessor;
    let mut chapter = String::from("# One\n\n```mermaid\nA-->B\n```\n");
    assert_eq!(preprocessor.process_chapter(&mut chapter), Ok(()));
    assert!(chapter.starts_with("# One\n\n<div class=\"excalidraw-wrapper\" id=\"excalidraw-0\">"));
    assert!(chapter.contains(&render_fragment(0, "A-->B\n")));
    let mut plain = String::from("# Two\n\nnothing to do\n");
    assert_eq!(preprocessor.process_chapter(&mut plain), Ok(()));
    assert_eq!(plain, "# Two\n\nnothing to do\n");
}
