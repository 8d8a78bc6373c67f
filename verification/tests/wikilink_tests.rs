use notemancy_lsp::wikilink::completion_trigger_span;
use notemancy_lsp::wikilink::extract_wikilink_at_offset;
use notemancy_lsp::wikilink::wikilink_at_offset;

#[test]
fn wiki_link_with_alias_decomposes() {
    let text = "see [[a/b.md | Title]] end";
    let link = wikilink_at_offset(text, 8).expect("link expected");
    assert_eq!(link.target, "a/b.md");
    assert_eq!(link.alias.as_deref(), Some("Title"));
    assert_eq!(link.start, 4);
    assert_eq!(link.end, 22);
}

#[test]
fn wiki_link_without_alias_decomposes() {
    let text = "[[a/b.md]]";
    let link = wikilink_at_offset(text, 4).expect("link expected");
    assert_eq!(link.target, "a/b.md");
    assert_eq!(link.alias, None);
    assert_eq!(link.start, 0);
    assert_eq!(link.end, 10);
}

#[test]
fn unterminated_link_yields_nothing() {
    let text = "[[unterminated";
    assert!(wikilink_at_offset(text, 5).is_none());
    assert!(extract_wikilink_at_offset(text, 5).is_none());
}

#[test]
fn missing_opener_yields_nothing() {
    let text = "no link here ]]";
    assert!(wikilink_at_offset(text, 3).is_none());
}

#[test]
fn empty_target_yields_no_link() {
    let text = "[[ ]]";
    assert!(wikilink_at_offset(text, 2).is_none());
    assert!(extract_wikilink_at_offset(text, 2).is_none());
}

#[test]
fn extract_returns_target_before_pipe() {
    let text = "x [[note|Note Title]] y";
    let target = extract_wikilink_at_offset(text, 5).expect("target expected");
    assert_eq!(target, "note");
}

#[test]
fn cursor_anywhere_in_brackets_resolves() {
    let text = "See [[note|Note Title]] here";
    for o in 6..=21 {
        let link = wikilink_at_offset(text, o).expect("link expected");
        assert_eq!(link.target, "note");
        assert_eq!(link.alias.as_deref(), Some("Note Title"));
        let target = extract_wikilink_at_offset(text, o).expect("target expected");
        assert_eq!(target, "note");
    }
}

#[test]
fn trigger_span_ends_at_cursor() {
    let line = "ab [[cd";
    let span = completion_trigger_span(line, 7).expect("trigger expected");
    assert_eq!(span, (3, 7));
}

#[test]
fn trigger_span_extends_over_auto_paired_close() {
    let line = "x [[]]";
    let span = completion_trigger_span(line, 4).expect("trigger expected");
    assert_eq!(span, (2, 6));
}

#[test]
fn no_trigger_without_opener() {
    assert!(completion_trigger_span("plain text", 5).is_none());
}
