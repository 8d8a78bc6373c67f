use notemancy_lsp::frontmatter::update_document_with_tags;

fn tags(list: &[&str]) -> Vec<String> {
    list.iter().map(|t| t.to_string()).collect()
}

#[test]
fn replaces_existing_tags_line() {
    let text = "---\ntitle: x\ntags: [\"old\"]\n---\nbody";
    let out = update_document_with_tags(text, &tags(&["a", "b"]));
    assert_eq!(out, "---\ntitle: x\ntags: [\"a\", \"b\"]\n---\nbody");
}

#[test]
fn inserts_tags_into_existing_frontmatter() {
    let text = "---\ntitle: x\n---\nbody";
    let out = update_document_with_tags(text, &tags(&["t"]));
    assert_eq!(out, "---\ntitle: x\ntags: [\"t\"]\n---\nbody");
}

#[test]
fn wraps_document_without_frontmatter() {
    let text = "first\nsecond";
    let out = update_document_with_tags(text, &tags(&["t"]));
    assert_eq!(out, "---\ntags: [\"t\"]\n---\n\nfirst\nsecond");
}

#[test]
fn unclosed_frontmatter_gains_a_fresh_block() {
    let text = "---\ntitle: x";
    let out = update_document_with_tags(text, &tags(&["t"]));
    assert_eq!(out, "---\ntags: [\"t\"]\n---\n\n---\ntitle: x");
}

#[test]
fn empty_tag_list_yields_empty_brackets() {
    let out = update_document_with_tags("body", &tags(&[]));
    assert_eq!(out, "---\ntags: []\n---\n\nbody");
}

#[test]
fn tag_update_is_idempotent_on_trailing_bare_carriage_return() {
    let text = "body\r";
    let once = update_document_with_tags(text, &tags(&["t"]));
    let twice = update_document_with_tags(&once, &tags(&["t"]));
    assert_eq!(once, "---\ntags: [\"t\"]\n---\n\nbody\r");
    assert_eq!(twice, once);
}
