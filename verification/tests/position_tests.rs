use notemancy_lsp::position::offset_to_position;
use notemancy_lsp::position::position_to_offset;

#[test]
fn offset_position_round_trip_all_offsets() {
    let text = "first line\n\nthird line\nlast";
    let len = text.chars().count();
    for o in 0..=len {
        let p = offset_to_position(text, o);
        let back = position_to_offset(text, p.line, p.character);
        assert_eq!(back, o);
    }
}

#[test]
fn round_trip_with_trailing_newline() {
    let text = "a\nbb\n";
    let len = text.chars().count();
    for o in 0..=len {
        let p = offset_to_position(text, o);
        assert_eq!(position_to_offset(text, p.line, p.character), o);
    }
}

#[test]
fn column_clamps_to_line_length() {
    let text = "ab\ncdef";
    assert_eq!(position_to_offset(text, 0, 99), 2);
    assert_eq!(position_to_offset(text, 1, 99), 7);
}

#[test]
fn line_beyond_document_yields_end_of_text() {
    let text = "ab\ncd";
    assert_eq!(position_to_offset(text, 7, 0), 5);
    assert_eq!(position_to_offset(text, 7, 3), 5);
}

#[test]
fn positions_count_lines_and_columns() {
    let text = "ab\ncd";
    let p = offset_to_position(text, 4);
    assert_eq!(p.line, 1);
    assert_eq!(p.character, 1);
    let q = offset_to_position(text, 2);
    assert_eq!(q.line, 0);
    assert_eq!(q.character, 2);
}

#[test]
fn offset_past_end_clamps() {
    let text = "ab";
    let p = offset_to_position(text, 50);
    assert_eq!(p.line, 0);
    assert_eq!(p.character, 2);
}
