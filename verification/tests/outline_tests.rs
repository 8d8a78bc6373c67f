use notemancy_lsp::outline::collect_symbols;
use notemancy_lsp::outline::SymbolKind;
use notemancy_lsp::parser::parse_markdown_symbols;
use notemancy_lsp::symbol::MarkdownSymbolExtractor;

#[test]
fn test_single_heading() {
    let markdown = "# Header 1";
    let symbols = collect_symbols(markdown);

    assert_eq!(symbols.len(), 1);
    assert_eq!(symbols[0].name, "Header 1");
    assert_eq!(symbols[0].children.len(), 0);
}

#[test]
fn test_multiple_headings_same_level() {
    let markdown = "# Header 1\n# Header 2\n# Header 3";
    let symbols = collect_symbols(markdown);

    assert_eq!(symbols.len(), 3);
    assert_eq!(symbols[0].name, "Header 1");
    assert_eq!(symbols[1].name, "Header 2");
    assert_eq!(symbols[2].name, "Header 3");
}

#[test]
fn test_nested_headings() {
    let markdown = "# Main\n## Sub 1\n### Deep 1\n## Sub 2";
    let symbols = collect_symbols(markdown);

    assert_eq!(symbols.len(), 1);
    assert_eq!(symbols[0].name, "Main");

    let children = &symbols[0].children;
    assert_eq!(children.len(), 2);
    assert_eq!(children[0].name, "Sub 1");
    assert_eq!(children[1].name, "Sub 2");

    let sub_children = &children[0].children;
    assert_eq!(sub_children.len(), 1);
    assert_eq!(sub_children[0].name, "Deep 1");
}

#[test]
fn test_complex_hierarchy() {
    let markdown = "\
# Main
## Section 1
### Sub 1.1
### Sub 1.2
## Section 2
### Sub 2.1
#### Deep 2.1.1
### Sub 2.2";

    let symbols = collect_symbols(markdown);

    assert_eq!(symbols.len(), 1);
    let main = &symbols[0];
    assert_eq!(main.name, "Main");

    let sections = &main.children;
    assert_eq!(sections.len(), 2);
    assert_eq!(sections[0].name, "Section 1");
    assert_eq!(sections[1].name, "Section 2");

    let section1_subs = &sections[0].children;
    assert_eq!(section1_subs.len(), 2);
    assert_eq!(section1_subs[0].name, "Sub 1.1");
    assert_eq!(section1_subs[1].name, "Sub 1.2");

    let section2_subs = &sections[1].children;
    assert_eq!(section2_subs.len(), 2);
    assert_eq!(section2_subs[0].name, "Sub 2.1");
    assert_eq!(section2_subs[1].name, "Sub 2.2");

    let deep_sub = &section2_subs[0].children;
    assert_eq!(deep_sub.len(), 1);
    assert_eq!(deep_sub[0].name, "Deep 2.1.1");
}

#[test]
fn test_empty_document() {
    let markdown = "";
    let symbols = collect_symbols(markdown);
    assert_eq!(symbols.len(), 0);
}

#[test]
fn test_document_no_headings() {
    let markdown = "Just some text\nwith multiple lines\nand no headings";
    let symbols = collect_symbols(markdown);
    assert_eq!(symbols.len(), 0);
}

#[test]
fn test_mixed_content() {
    let markdown = "\
# Header 1
Some text here
## Subheader
- List item
- Another item
### Deep header
```rust
let code = true;
```
## Another sub";

    let symbols = collect_symbols(markdown);

    assert_eq!(symbols.len(), 1);
    let main = &symbols[0];
    assert_eq!(main.name, "Header 1");

    let subs = &main.children;
    assert_eq!(subs.len(), 2);
    assert_eq!(subs[0].name, "Subheader");
    assert_eq!(subs[1].name, "Another sub");

    let deep = &subs[0].children;
    assert_eq!(deep.len(), 1);
    assert_eq!(deep[0].name, "Deep header");
}

#[test]
fn main_test_parse_markdown_symbols() {
    let text = "\n# Heading1\nSome text\n## Heading2\nMore text\n### Heading3\nEven more text\nNot a heading\n";
    let symbols = parse_markdown_symbols(text);
    assert_eq!(symbols.len(), 3);
    assert_eq!(symbols[0].name, "Heading1");
    assert_eq!(symbols[1].name, "Heading2");
    assert_eq!(symbols[2].name, "Heading3");
}

#[test]
fn parser_test_parse_markdown_symbols() {
    let markdown = "\
# Heading 1
Some text here
## Heading 2
More text";

    let symbols = parse_markdown_symbols(markdown);
    assert_eq!(symbols.len(), 2);
    assert_eq!(symbols[0].name, "Heading 1");
    assert_eq!(symbols[0].detail.as_deref(), Some("Heading level 1"));
    assert_eq!(symbols[1].name, "Heading 2");
    assert_eq!(symbols[1].detail.as_deref(), Some("Heading level 2"));
    assert_eq!(symbols[0].kind, SymbolKind::Namespace);
}

#[test]
fn test_symbol_extraction() {
    let content = "# Title\n## Section 1\n### Subsection";
    let results = MarkdownSymbolExtractor::extract_symbols(content, "test.md");

    assert_eq!(results.len(), 3);
    assert_eq!(results[0].name, "Title");
    assert_eq!(results[1].name, "Section 1");
    assert_eq!(results[2].name, "Subsection");
}

#[test]
fn level_skip_nests_without_synthetic_node() {
    let symbols = collect_symbols("# A\n### B");
    assert_eq!(symbols.len(), 1);
    assert_eq!(symbols[0].name, "A");
    assert_eq!(symbols[0].level, 1);
    assert_eq!(symbols[0].children.len(), 1);
    assert_eq!(symbols[0].children[0].name, "B");
    assert_eq!(symbols[0].children[0].level, 3);
    assert_eq!(symbols[0].children[0].children.len(), 0);
}

#[test]
fn end_to_end_outline_scenario() {
    let symbols = collect_symbols("# Main\n## Sub 1\n### Deep\n## Sub 2");
    assert_eq!(symbols.len(), 1);
    assert_eq!(symbols[0].name, "Main");
    assert_eq!(symbols[0].children.len(), 2);
    assert_eq!(symbols[0].children[0].name, "Sub 1");
    assert_eq!(symbols[0].children[1].name, "Sub 2");
    assert_eq!(symbols[0].children[0].children.len(), 1);
    assert_eq!(symbols[0].children[0].children[0].name, "Deep");
    assert_eq!(symbols[0].children[1].children.len(), 0);
}

#[test]
fn heading_text_runs_concatenate() {
    let symbols = collect_symbols("# Plain *emphasised* tail");
    assert_eq!(symbols.len(), 1);
    assert_eq!(symbols[0].name, "Plain emphasised tail");
}

#[test]
fn setext_headings_come_from_the_markup_parser() {
    let symbols = collect_symbols("Title\n=====\n\nSection\n-------");
    assert_eq!(symbols.len(), 1);
    assert_eq!(symbols[0].name, "Title");
    assert_eq!(symbols[0].children.len(), 1);
    assert_eq!(symbols[0].children[0].name, "Section");
}

#[test]
fn extractor_reports_positions_and_kinds() {
    let results = MarkdownSymbolExtractor::extract_symbols("# A\n## B", "file:///t.md");
    assert_eq!(results.len(), 2);
    assert_eq!(results[0].uri, "file:///t.md");
    assert_eq!(results[0].kind, SymbolKind::File);
    assert_eq!(results[1].kind, SymbolKind::Module);
    assert_eq!(results[0].range.start.line, 0);
    assert_eq!(results[1].range.start.line, 1);
}

#[test]
fn parse_symbols_report_lines_and_levels() {
    let symbols = parse_markdown_symbols("text\n##   Spaced heading  \nmore");
    assert_eq!(symbols.len(), 1);
    assert_eq!(symbols[0].name, "Spaced heading");
    assert_eq!(symbols[0].level, 2);
    assert_eq!(symbols[0].range.start.line, 1);
    assert_eq!(symbols[0].range.start.character, 0);
    assert_eq!(symbols[0].range.end.character, "##   Spaced heading  ".len());
}

#[test]
fn crlf_heading_line_parses_without_carriage_return() {
    let symbols = parse_markdown_symbols("# A\r\nrest");
    assert_eq!(symbols.len(), 1);
    assert_eq!(symbols[0].name, "A");
    assert_eq!(symbols[0].range.end.character, "# A".len());
}
