use hecto::document::Document;
use hecto::search::{Search, SearchEvent, SearchOutcome};
use hecto::Position;

fn doc2() -> Document {
    Document::from_text("hello\nworld")
}

#[test]
fn typing_narrows_to_match() {
    let doc = doc2();
    let mut cursor = Position { x: 0, y: 0 };
    let mut search = Search::start(&cursor);
    let (pos, out) = search.step(SearchEvent::Type('l'), &doc, &cursor, 10);
    assert_eq!(out, SearchOutcome::Pending);
    assert_eq!(pos, Position { x: 2, y: 0 });
    cursor = pos;
    let (pos, out) = search.step(SearchEvent::Type('o'), &doc, &cursor, 10);
    assert_eq!(out, SearchOutcome::Pending);
    assert_eq!(pos, Position { x: 3, y: 0 });
}

#[test]
fn miss_leaves_cursor_at_previous_match() {
    let doc = doc2();
    let mut cursor = Position { x: 0, y: 0 };
    let mut search = Search::start(&cursor);
    let (pos, _) = search.step(SearchEvent::Type('w'), &doc, &cursor, 10);
    assert_eq!(pos, Position { x: 0, y: 1 });
    cursor = pos;
    let (pos, _) = search.step(SearchEvent::Type('z'), &doc, &cursor, 10);
    assert_eq!(pos, Position { x: 0, y: 1 });
}

#[test]
fn next_advances_past_current_match() {
    let doc = Document::from_text("ab ab");
    let mut cursor = Position { x: 0, y: 0 };
    let mut search = Search::start(&cursor);
    let (pos, _) = search.step(SearchEvent::Type('a'), &doc, &cursor, 10);
    assert_eq!(pos, Position { x: 0, y: 0 });
    cursor = pos;
    let (pos, _) = search.step(SearchEvent::Next, &doc, &cursor, 10);
    assert_eq!(pos, Position { x: 3, y: 0 });
}

#[test]
fn next_without_further_match_steps_back() {
    let doc = doc2();
    let mut cursor = Position { x: 0, y: 0 };
    let mut search = Search::start(&cursor);
    let (pos, _) = search.step(SearchEvent::Type('h'), &doc, &cursor, 10);
    assert_eq!(pos, Position { x: 0, y: 0 });
    cursor = pos;
    let (pos, _) = search.step(SearchEvent::Next, &doc, &cursor, 10);
    assert_eq!(pos, Position { x: 0, y: 0 });
}

#[test]
fn prev_searches_backward() {
    let doc = Document::from_text("lo\nlo");
    let mut cursor = Position { x: 0, y: 1 };
    let mut search = Search::start(&cursor);
    let (pos, _) = search.step(SearchEvent::Type('l'), &doc, &cursor, 10);
    assert_eq!(pos, Position { x: 0, y: 1 });
    cursor = pos;
    let (pos, _) = search.step(SearchEvent::Prev, &doc, &cursor, 10);
    assert_eq!(pos, Position { x: 0, y: 0 });
}

#[test]
fn erase_shortens_query() {
    let doc = doc2();
    let mut cursor = Position { x: 0, y: 0 };
    let mut search = Search::start(&cursor);
    let (pos, _) = search.step(SearchEvent::Type('w'), &doc, &cursor, 10);
    cursor = pos;
    let (pos, _) = search.step(SearchEvent::Type('z'), &doc, &cursor, 10);
    cursor = pos;
    // Erasing the bad character finds "w" again, from where the cursor is.
    let (pos, out) = search.step(SearchEvent::Erase, &doc, &cursor, 10);
    assert_eq!(out, SearchOutcome::Pending);
    assert_eq!(pos, Position { x: 0, y: 1 });
}

#[test]
fn control_characters_do_not_join_the_query() {
    let doc = doc2();
    let cursor = Position { x: 0, y: 0 };
    let mut search = Search::start(&cursor);
    // A control character leaves the query empty: the probe with an
    // empty query hits immediately at the cursor.
    let (pos, out) = search.step(SearchEvent::Type('\u{7}'), &doc, &cursor, 10);
    assert_eq!(out, SearchOutcome::Pending);
    assert_eq!(pos, Position { x: 0, y: 0 });
}

#[test]
fn cancel_restores_anchor() {
    let doc = doc2();
    let anchor = Position { x: 1, y: 0 };
    let mut cursor = anchor;
    let mut search = Search::start(&anchor);
    let (pos, _) = search.step(SearchEvent::Type('w'), &doc, &cursor, 10);
    cursor = pos;
    assert_eq!(cursor, Position { x: 0, y: 1 });
    let (pos, out) = search.step(SearchEvent::Cancel, &doc, &cursor, 10);
    assert_eq!(out, SearchOutcome::Cancelled);
    assert_eq!(pos, anchor);
}

#[test]
fn submit_on_matching_query_keeps_cursor() {
    let doc = doc2();
    let mut cursor = Position { x: 0, y: 0 };
    let mut search = Search::start(&cursor);
    let (pos, _) = search.step(SearchEvent::Type('w'), &doc, &cursor, 10);
    cursor = pos;
    let (pos, out) = search.step(SearchEvent::Submit, &doc, &cursor, 10);
    assert_eq!(out, SearchOutcome::Accepted);
    assert_eq!(pos, Position { x: 0, y: 1 });
}

#[test]
fn submit_after_failed_query_restores_anchor() {
    let doc = doc2();
    let anchor = Position { x: 0, y: 0 };
    let mut cursor = anchor;
    let mut search = Search::start(&anchor);
    let (pos, _) = search.step(SearchEvent::Type('w'), &doc, &cursor, 10);
    cursor = pos;
    let (pos, _) = search.step(SearchEvent::Type('q'), &doc, &cursor, 10);
    cursor = pos;
    let (pos, out) = search.step(SearchEvent::Submit, &doc, &cursor, 10);
    assert_eq!(out, SearchOutcome::NotFound);
    assert_eq!(pos, anchor);
}

#[test]
fn submit_with_empty_query_cancels() {
    let doc = doc2();
    let cursor = Position { x: 0, y: 0 };
    let mut search = Search::start(&cursor);
    let (pos, out) = search.step(SearchEvent::Submit, &doc, &cursor, 10);
    assert_eq!(out, SearchOutcome::Cancelled);
    assert_eq!(pos, cursor);
}
