use mdbook_excalidraw::add_excalidraw;

#[test]
fn test_simple_mermaid_conversion() {
    let input = "# Test\n\n```mermaid\ngraph TD\n    A-->B\n```\n\nSome text";

    let result = add_excalidraw(input).unwrap();

    assert!(result.contains("excalidraw-wrapper"));
    assert!(result.contains("data-mermaid"));
    assert!(result.contains("graph TD"));
    assert!(result.contains("A--&gt;B"));
}

#[test]
fn test_html_escaping() {
    let input = "```mermaid\ngraph TD\n    A[\"<script>alert('xss')</script>\"]-->B\n```";

    let result = add_excalidraw(input).unwrap();

    assert!(result.contains("&lt;script&gt;"));
    assert!(result.contains("&lt;/script&gt;"));
    assert!(!result.contains("<script>"));
}

#[test]
fn test_newline_escaping() {
    let input = "```mermaid\ngraph TD\n    A-->B\n    B-->C\n```";

    let result = add_excalidraw(input).unwrap();

    // Newlines should be escaped as &#10; in data-mermaid attribute
    assert!(result.contains("&#10;"));
}

#[test]
fn test_multiple_diagrams() {
    let input = "# Test\n\n```mermaid\ngraph TD\n    A-->B\n```\n\nSome text\n\n```mermaid\nsequenceDiagram\n    Alice->>Bob: Hello\n```";

    let result = add_excalidraw(input).unwrap();

    assert!(result.contains("excalidraw-0"));
    assert!(result.contains("excalidraw-1"));
    assert!(result.contains("graph TD"));
    assert!(result.contains("sequenceDiagram"));
}

#[test]
fn integration_test_test_non_mermaid_blocks_unchanged() {
    let input = "```rust\nfn main() {\n    println!(\"Hello\");\n}\n```";

    let result = add_excalidraw(input).unwrap();

    assert!(result.contains("```rust"));
    assert!(!result.contains("excalidraw"));
}

#[test]
fn test_view_source_section() {
    let input = "```mermaid\ngraph TD\n    A-->B\n```";

    let result = add_excalidraw(input).unwrap();

    assert!(result.contains("excalidraw-source"));
    assert!(result.contains("View Mermaid Source"));
}

#[test]
fn test_empty_mermaid_block() {
    let input = "```mermaid\n```";

    let result = add_excalidraw(input).unwrap();

    assert!(result.contains("excalidraw-wrapper"));
}

#[test]
fn test_special_characters() {
    let input = "```mermaid\ngraph TD\n    A[\"Test & <thing>\"]-->B\n```";

    let result = add_excalidraw(input).unwrap();

    assert!(result.contains("&amp;"));
    assert!(result.contains("&lt;"));
    assert!(result.contains("&gt;"));
}

#[test]
fn test_quotes_in_diagram() {
    let input = "```mermaid\ngraph TD\n    A[\"He said 'hello'\"]-->B\n```";

    let result = add_excalidraw(input).unwrap();

    assert!(result.contains("&#39;"));
}
