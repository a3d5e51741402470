use hecto::document::Document;
use hecto::{Position, SearchDirection};

fn doc_from_lines(lines: &[&str]) -> Document {
    let mut text = String::new();
    for (i, l) in lines.iter().enumerate() {
        if i > 0 {
            text.push('\n');
        }
        text.push_str(l);
    }
    Document::from_text(&text)
}

fn row_text(doc: &Document, y: usize) -> String {
    let row = doc.row(y).expect("row in range");
    row.render(0, row.len())
}

#[test]
fn from_text_splits_lines() {
    let doc = Document::from_text("abc\nde\nf");
    assert_eq!(doc.len(), 3);
    assert_eq!(row_text(&doc, 0), "abc");
    assert_eq!(row_text(&doc, 1), "de");
    assert_eq!(row_text(&doc, 2), "f");
    assert!(!doc.is_dirty());
    assert!(doc.file_name.is_none());
}

#[test]
fn from_text_empty_has_no_rows() {
    let doc = Document::from_text("");
    assert_eq!(doc.len(), 0);
    assert!(doc.is_empty());
}

#[test]
fn from_text_trailing_terminator_adds_no_row() {
    let doc = Document::from_text("a\n");
    assert_eq!(doc.len(), 1);
    assert_eq!(row_text(&doc, 0), "a");
    let doc = Document::from_text("\n");
    assert_eq!(doc.len(), 1);
    assert_eq!(row_text(&doc, 0), "");
}

#[test]
fn from_text_strips_carriage_return_before_newline() {
    let doc = Document::from_text("a\r\nb");
    assert_eq!(doc.len(), 2);
    assert_eq!(row_text(&doc, 0), "a");
    assert_eq!(row_text(&doc, 1), "b");
}

#[test]
fn insert_char_in_row() {
    let mut doc = doc_from_lines(&["abc"]);
    doc.insert(&Position { x: 1, y: 0 }, 'x');
    assert_eq!(row_text(&doc, 0), "axbc");
    assert!(doc.is_dirty());
}

#[test]
fn insert_one_past_last_row_appends() {
    let mut doc = doc_from_lines(&["abc"]);
    doc.insert(&Position { x: 0, y: 1 }, 'q');
    assert_eq!(doc.len(), 2);
    assert_eq!(row_text(&doc, 1), "q");
}

#[test]
fn insert_far_out_is_ignored() {
    let mut doc = doc_from_lines(&["abc"]);
    doc.insert(&Position { x: 0, y: 5 }, 'q');
    assert_eq!(doc.len(), 1);
    assert_eq!(row_text(&doc, 0), "abc");
    assert!(!doc.is_dirty());
}

#[test]
fn insert_newline_splits_row() {
    let mut doc = doc_from_lines(&["abcdef"]);
    doc.insert(&Position { x: 2, y: 0 }, '\n');
    assert_eq!(doc.len(), 2);
    assert_eq!(row_text(&doc, 0), "ab");
    assert_eq!(row_text(&doc, 1), "cdef");
}

#[test]
fn insert_newline_at_document_end_appends_empty_row() {
    let mut doc = doc_from_lines(&["a"]);
    doc.insert(&Position { x: 0, y: 1 }, '\n');
    assert_eq!(doc.len(), 2);
    assert_eq!(row_text(&doc, 1), "");
}

#[test]
fn delete_at_row_end_merges_rows() {
    let mut doc = doc_from_lines(&["hello", "world"]);
    doc.delete(&Position { x: 5, y: 0 });
    assert_eq!(doc.len(), 1);
    assert_eq!(row_text(&doc, 0), "helloworld");
    assert!(doc.is_dirty());
}

#[test]
fn delete_in_row_removes_cluster() {
    let mut doc = doc_from_lines(&["abc"]);
    doc.delete(&Position { x: 1, y: 0 });
    assert_eq!(row_text(&doc, 0), "ac");
}

#[test]
fn delete_past_rows_is_ignored() {
    let mut doc = doc_from_lines(&["abc"]);
    doc.delete(&Position { x: 0, y: 3 });
    assert_eq!(doc.len(), 1);
    assert!(!doc.is_dirty());
}

#[test]
fn newline_then_delete_restores_rows() {
    let mut doc = doc_from_lines(&["abcdef", "tail"]);
    doc.insert(&Position { x: 2, y: 0 }, '\n');
    doc.delete(&Position { x: 2, y: 0 });
    assert_eq!(doc.len(), 2);
    assert_eq!(row_text(&doc, 0), "abcdef");
    assert_eq!(row_text(&doc, 1), "tail");
}

#[test]
fn mark_saved_clears_dirty() {
    let mut doc = doc_from_lines(&["a"]);
    doc.insert(&Position { x: 0, y: 0 }, 'b');
    assert!(doc.is_dirty());
    doc.mark_saved();
    assert!(!doc.is_dirty());
}

#[test]
fn find_forward_scans_rows() {
    let doc = doc_from_lines(&["hello", "world"]);
    let hit = doc.find("lo", &Position { x: 0, y: 0 }, SearchDirection::Forward);
    assert_eq!(hit, Some(Position { x: 3, y: 0 }));
    let hit = doc.find("or", &Position { x: 0, y: 0 }, SearchDirection::Forward);
    assert_eq!(hit, Some(Position { x: 1, y: 1 }));
    let hit = doc.find("zz", &Position { x: 0, y: 0 }, SearchDirection::Forward);
    assert_eq!(hit, None);
}

#[test]
fn find_forward_starts_at_column() {
    let doc = doc_from_lines(&["hello"]);
    let hit = doc.find("l", &Position { x: 3, y: 0 }, SearchDirection::Forward);
    assert_eq!(hit, Some(Position { x: 3, y: 0 }));
}

#[test]
fn find_backward_scans_rows() {
    let doc = doc_from_lines(&["hello", "world"]);
    let hit = doc.find("l", &Position { x: 3, y: 1 }, SearchDirection::Backward);
    assert_eq!(hit, Some(Position { x: 3, y: 0 }));
    let hit = doc.find("l", &Position { x: 4, y: 1 }, SearchDirection::Backward);
    assert_eq!(hit, Some(Position { x: 3, y: 1 }));
}

#[test]
fn find_from_row_out_of_range_is_none() {
    let doc = doc_from_lines(&["abc"]);
    let hit = doc.find("a", &Position { x: 0, y: 1 }, SearchDirection::Forward);
    assert_eq!(hit, None);
}

#[test]
fn find_forward_then_backward_agree() {
    let doc = doc_from_lines(&["hello", "world"]);
    let hit = doc.find("lo", &Position { x: 0, y: 0 }, SearchDirection::Forward);
    assert_eq!(hit, Some(Position { x: 3, y: 0 }));
    // From just past the end of that occurrence, the backward search
    // finds the same one.
    let back = doc.find("lo", &Position { x: 5, y: 0 }, SearchDirection::Backward);
    assert_eq!(back, Some(Position { x: 3, y: 0 }));
}
