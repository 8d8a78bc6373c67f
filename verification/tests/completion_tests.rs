use notemancy_lsp::completion::NoteRecord;
use notemancy_lsp::completion::build_link_candidates;
use notemancy_lsp::completion::get_alias;
use notemancy_lsp::completion::get_virtual_path;
use notemancy_lsp::completion::link_completions;
use notemancy_lsp::completion::typed_query;

fn record(vpath: &str, metadata: &str) -> NoteRecord {
    NoteRecord {
        virtual_path: vpath.to_string(),
        path: format!("/vault/{}", vpath),
        metadata: metadata.to_string(),
    }
}

#[test]
fn alias_prefers_metadata_title() {
    let rec = record("notes/a.md", "{\"title\":\"Alpha\"}");
    assert_eq!(get_alias(&rec), "Alpha");
}

#[test]
fn alias_falls_back_to_file_name() {
    let rec = record("notes/b.md", "not json");
    assert_eq!(get_alias(&rec), "b.md");
}

#[test]
fn alias_falls_back_to_whole_path() {
    let rec = record("plain", "{}");
    assert_eq!(get_alias(&rec), "plain");
}

#[test]
fn virtual_path_normalises_backslashes() {
    assert_eq!(get_virtual_path("a\\b\\c.md"), "a/b/c.md");
    assert_eq!(get_virtual_path("a/b.md"), "a/b.md");
}

#[test]
fn candidates_cover_markdown_notes_only() {
    let records = vec![
        record("notes/a.md", "{\"title\":\"Alpha\"}"),
        record("image.png", "{}"),
        record("b.md", "junk"),
    ];
    let candidates = build_link_candidates(&records);
    assert_eq!(candidates.len(), 2);
    assert_eq!(candidates[0].label, "notes/a.md");
    assert_eq!(candidates[0].new_text, "[[notes/a.md | Alpha]]");
    assert_eq!(candidates[1].label, "b.md");
    assert_eq!(candidates[1].new_text, "[[b.md | b.md]]");
}

#[test]
fn completion_triggers_after_opener() {
    let text = "ab\n[[x";
    let records = vec![record("n.md", "{}")];
    let (start, end, candidates) = link_completions(text, 1, 5, &records).expect("trigger");
    assert_eq!(start, 0);
    assert_eq!(end, 3);
    assert_eq!(candidates.len(), 1);
}

#[test]
fn completion_replaces_auto_paired_close() {
    let text = "[[]]";
    let records = vec![record("n.md", "{}")];
    let (start, end, _candidates) = link_completions(text, 0, 2, &records).expect("trigger");
    assert_eq!(start, 0);
    assert_eq!(end, 4);
}

#[test]
fn completion_without_opener_is_empty() {
    let records = vec![record("n.md", "{}")];
    assert!(link_completions("plain line", 0, 5, &records).is_none());
}

#[test]
fn completion_on_missing_line_is_empty() {
    let records = vec![record("n.md", "{}")];
    assert!(link_completions("one line", 3, 0, &records).is_none());
}

#[test]
fn typed_query_returns_text_after_opener() {
    assert_eq!(typed_query("ab\n[[he", 1, 4).as_deref(), Some("he"));
    assert_eq!(typed_query("[[abc", 0, 99).as_deref(), Some("abc"));
    assert_eq!(typed_query("plain", 0, 3), None);
    assert_eq!(typed_query("one", 5, 0), None);
}
