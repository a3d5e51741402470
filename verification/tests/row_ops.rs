use hecto::row::Row;
use hecto::SearchDirection;

#[test]
fn render_reconstructs_plain_text() {
    let row = Row::from_str("hello world");
    assert_eq!(row.len(), 11);
    assert_eq!(row.render(0, row.len()), "hello world");
}

#[test]
fn render_reconstructs_multibyte_text() {
    // Three clusters, each of more than one code point.
    let text = "a\u{310}e\u{301}o\u{308}\u{332}";
    let row = Row::from_str(text);
    assert_eq!(row.len(), 3);
    assert_eq!(row.render(0, row.len()), text);
}

#[test]
fn render_clamps_bounds() {
    let row = Row::from_str("abcd");
    assert_eq!(row.render(1, 99), "bcd");
    assert_eq!(row.render(7, 99), "");
    assert_eq!(row.render(3, 1), "");
    assert_eq!(row.render(1, 3), "bc");
}

#[test]
fn insert_grows_by_one() {
    let mut row = Row::from_str("abc");
    row.insert(1, 'x');
    assert_eq!(row.len(), 4);
    assert_eq!(row.render(0, 4), "axbc");
}

#[test]
fn insert_past_end_appends() {
    let mut row = Row::from_str("ab");
    row.insert(9, 'z');
    assert_eq!(row.len(), 3);
    assert_eq!(row.render(0, 3), "abz");
}

#[test]
fn insert_then_delete_is_identity() {
    let mut row = Row::from_str("abc");
    row.insert(1, 'x');
    row.delete(1);
    assert_eq!(row.len(), 3);
    assert_eq!(row.render(0, 3), "abc");
}

#[test]
fn delete_removes_cluster() {
    let mut row = Row::from_str("abcd");
    row.delete(2);
    assert_eq!(row.len(), 3);
    assert_eq!(row.render(0, 3), "abd");
}

#[test]
fn delete_at_end_is_noop() {
    let mut row = Row::from_str("abc");
    row.delete(3);
    assert_eq!(row.len(), 3);
    assert_eq!(row.render(0, 3), "abc");
}

#[test]
fn append_concatenates() {
    let mut a = Row::from_str("foo");
    let b = Row::from_str("bar");
    a.append(&b);
    assert_eq!(a.len(), 6);
    assert_eq!(a.render(0, 6), "foobar");
}

#[test]
fn cut_then_append_is_identity() {
    let mut row = Row::from_str("abcd");
    let rest = row.cut(2);
    assert_eq!(row.render(0, 2), "ab");
    assert_eq!(rest.render(0, 2), "cd");
    row.append(&rest);
    assert_eq!(row.len(), 4);
    assert_eq!(row.render(0, 4), "abcd");
}

#[test]
fn cut_past_end_leaves_row_whole() {
    let mut row = Row::from_str("ab");
    let rest = row.cut(5);
    assert_eq!(row.len(), 2);
    assert_eq!(rest.len(), 0);
}

#[test]
fn find_forward_first_occurrence() {
    let row = Row::from_str("hello");
    assert_eq!(row.find("l", 0, SearchDirection::Forward), Some(2));
    assert_eq!(row.find("l", 3, SearchDirection::Forward), Some(3));
    assert_eq!(row.find("z", 0, SearchDirection::Forward), None);
}

#[test]
fn find_backward_last_occurrence() {
    let row = Row::from_str("hello");
    assert_eq!(row.find("l", 5, SearchDirection::Backward), Some(3));
    assert_eq!(row.find("l", 3, SearchDirection::Backward), Some(2));
    assert_eq!(row.find("h", 0, SearchDirection::Backward), None);
}

#[test]
fn find_past_end_is_none() {
    let row = Row::from_str("abc");
    assert_eq!(row.find("a", 4, SearchDirection::Forward), None);
}

#[test]
fn find_empty_query() {
    let row = Row::from_str("abc");
    assert_eq!(row.find("", 1, SearchDirection::Forward), Some(1));
    assert_eq!(row.find("", 3, SearchDirection::Forward), None);
}

#[test]
fn find_multibyte_respects_cluster_boundaries() {
    // Two clusters: "a" with a combining mark, "e" with a combining mark.
    let row = Row::from_str("a\u{310}e\u{301}");
    assert_eq!(row.len(), 2);
    // The second cluster starts at a boundary, so its full text is found.
    assert_eq!(row.find("e\u{301}", 0, SearchDirection::Forward), Some(1));
    // A combining mark alone occurs mid-cluster: no boundary, no hit.
    assert_eq!(row.find("\u{301}", 0, SearchDirection::Forward), None);
}

#[test]
fn as_bytes_is_utf8() {
    let row = Row::from_str("ab");
    assert_eq!(row.as_bytes(), vec![b'a', b'b']);
    let row = Row::from_str("\u{e9}");
    assert_eq!(row.as_bytes(), vec![0xc3, 0xa9]);
}
