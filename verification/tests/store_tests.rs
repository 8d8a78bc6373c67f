use notemancy_lsp::store::Document;
use notemancy_lsp::store::DocumentStore;

#[test]
fn open_stores_and_get_returns_text() {
    let mut store = DocumentStore::new();
    store.open("file:///a.md".to_string(), "# A".to_string());
    assert_eq!(store.get_content("file:///a.md").as_deref(), Some("# A"));
    assert_eq!(store.get_content("file:///b.md"), None);
}

#[test]
fn change_replaces_text_wholesale() {
    let mut store = DocumentStore::new();
    store.open("u".to_string(), "old".to_string());
    store.change("u".to_string(), "new".to_string());
    assert_eq!(store.get_content("u").as_deref(), Some("new"));
}

#[test]
fn close_evicts_only_the_named_document() {
    let mut store = DocumentStore::new();
    store.open("u1".to_string(), "one".to_string());
    store.open("u2".to_string(), "two".to_string());
    store.close("u1");
    assert_eq!(store.get_content("u1"), None);
    assert_eq!(store.get_content("u2").as_deref(), Some("two"));
}

#[test]
fn outline_recomputes_from_current_text() {
    let mut store = DocumentStore::new();
    store.open("u".to_string(), "# A\n## B".to_string());
    let outline = store.outline("u").expect("outline expected");
    assert_eq!(outline.len(), 1);
    assert_eq!(outline[0].name, "A");
    assert_eq!(outline[0].children.len(), 1);
    assert_eq!(outline[0].children[0].name, "B");

    store.change("u".to_string(), "# C".to_string());
    let outline2 = store.outline("u").expect("outline expected");
    assert_eq!(outline2.len(), 1);
    assert_eq!(outline2[0].name, "C");
}

#[test]
fn outline_of_unopened_document_is_absent() {
    let store = DocumentStore::new();
    assert!(store.outline("missing").is_none());
}

#[test]
fn document_updates_and_lists_symbols() {
    let mut doc = Document::new("u".to_string(), "# One".to_string());
    let symbols = doc.get_symbols();
    assert_eq!(symbols.len(), 1);
    assert_eq!(symbols[0].name, "One");

    doc.update_content("# Two\n## Three".to_string());
    let symbols = doc.get_symbols();
    assert_eq!(symbols.len(), 1);
    assert_eq!(symbols[0].name, "Two");
    assert_eq!(symbols[0].children[0].name, "Three");
}
