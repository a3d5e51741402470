use vstd::prelude::*;

use crate::cursor::{move_cursor, move_spec, CursorMove};
use crate::document::{doc_find, Document};
use crate::row::chars_to_string;
use crate::{Position, SearchDirection};

verus! {

/// One keystroke of an open search prompt, as the input loop hands it
/// over: a printable character extends the query, `Erase` shortens it,
/// `Next` and `Prev` jump between occurrences, `Other` is any further
/// key, and `Cancel` and `Submit` close the prompt.
#[derive(Clone, Copy, PartialEq, Eq, Structural, Debug)]
pub enum SearchEvent {
    Type(char),
    Erase,
    Next,
    Prev,
    Other,
    Cancel,
    Submit,
}

/// How a search step left the prompt: still open, or closed keeping
/// the cursor at the match, or closed with the cursor restored — with
/// `NotFound` naming the case of a query that an earlier one matched
/// but the final one did not.
#[derive(Clone, Copy, PartialEq, Eq, Structural, Debug)]
pub enum SearchOutcome {
    Pending,
    Accepted,
    Cancelled,
    NotFound,
}

/// A control character, which the query never takes up: the code
/// points below `0x20` and from `0x7f` up to but not including `0xa0`.
pub open spec fn is_control_char(c: char) -> bool {
    (c as u32) < 0x20 || (0x7f <= (c as u32) && (c as u32) < 0xa0)
}

/// The query after a keystroke: a printable character is appended, an
/// erasure drops the last character of a nonempty query, a cancel
/// discards it, and anything else leaves it.
pub open spec fn query_after(q: Seq<char>, event: SearchEvent) -> Seq<char> {
    match event {
        SearchEvent::Type(c) => if is_control_char(c) {
            q
        } else {
            q.push(c)
        },
        SearchEvent::Erase => if q.len() > 0 {
            q.drop_last()
        } else {
            q
        },
        SearchEvent::Cancel => Seq::empty(),
        _ => q,
    }
}

/// The direction after a keystroke: `Prev` turns the scan backward,
/// closing the prompt keeps the direction, and every other keystroke
/// turns it forward.
pub open spec fn direction_after(d: SearchDirection, event: SearchEvent) -> SearchDirection {
    match event {
        SearchEvent::Prev => SearchDirection::Backward,
        SearchEvent::Cancel => d,
        SearchEvent::Submit => d,
        _ => SearchDirection::Forward,
    }
}

/// Where the probe for the next occurrence starts: `Next` first steps
/// the cursor one cluster to the right, so the occurrence under the
/// cursor is not found again; every other keystroke probes from the
/// cursor itself.
pub open spec fn probe_start(
    rows: Seq<Seq<Seq<char>>>,
    event: SearchEvent,
    pos: (int, int),
    page: int,
) -> (int, int) {
    if event == SearchEvent::Next {
        move_spec(rows, pos, CursorMove::Right, page)
    } else {
        pos
    }
}

/// The occurrence a search step finds, if any.
pub open spec fn search_probe(
    rows: Seq<Seq<Seq<char>>>,
    q: Seq<char>,
    d: SearchDirection,
    event: SearchEvent,
    pos: (int, int),
    page: int,
) -> Option<(int, int)> {
    let s = probe_start(rows, event, pos, page);
    doc_find(rows, q, s.0, s.1, d)
}

/// Where the cursor stands after a search step: at the occurrence when
/// there is one; otherwise back where it was, a fruitless `Next`
/// undoing its rightward step with a step left.
pub open spec fn search_step_pos(
    rows: Seq<Seq<Seq<char>>>,
    q: Seq<char>,
    d: SearchDirection,
    event: SearchEvent,
    pos: (int, int),
    page: int,
) -> (int, int) {
    let s = probe_start(rows, event, pos, page);
    match doc_find(rows, q, s.0, s.1, d) {
        Some(p) => p,
        None => if event == SearchEvent::Next {
            move_spec(rows, s, CursorMove::Left, page)
        } else {
            pos
        },
    }
}

/// An open search prompt: the query so far, the scan direction, the
/// cursor position to restore on cancel, and the last query that
/// produced a match.
pub struct Search {
    query: Vec<char>,
    direction: SearchDirection,
    anchor: Position,
    last_match_query: Option<Vec<char>>,
}

impl Search {
    /// The query typed so far.
    pub closed spec fn spec_query(&self) -> Seq<char> {
        self.query@
    }

    /// The direction the next probe scans in.
    pub closed spec fn spec_direction(&self) -> SearchDirection {
        self.direction
    }

    /// The cursor position recorded when the prompt opened.
    pub closed spec fn spec_anchor(&self) -> Position {
        self.anchor
    }

    /// The last query that produced a match, if any did.
    pub closed spec fn spec_last_match(&self) -> Option<Seq<char>> {
        match self.last_match_query {
            Some(q) => Some(q@),
            None => None,
        }
    }

    /// Opens a search prompt at the given cursor position: the query is
    /// empty, the scan runs forward, and the position is recorded for a
    /// later cancel.
    pub fn start(cursor: &Position) -> (s: Search)
        ensures
            s.spec_query() == Seq::<char>::empty(),
            s.spec_direction() == SearchDirection::Forward,
            s.spec_anchor() == *cursor,
            s.spec_last_match() is None,
    {
        Search {
            query: Vec::new(),
            direction: SearchDirection::Forward,
            anchor: *cursor,
            last_match_query: None,
        }
    }

    /// The query typed so far, for display at the prompt.
    pub fn query_string(&self) -> (r: String)
        ensures
            r@ == self.spec_query(),
    {
        chars_to_string(&self.query)
    }

    /// Feeds one keystroke to the prompt. An editing keystroke adjusts
    /// the query and direction, probes the document once, and returns
    /// the cursor either at the occurrence or back where it was, with
    /// the prompt still open. `Cancel` closes the prompt and restores
    /// the anchor. `Submit` keeps the cursor only when the final query
    /// is nonempty and is exactly the last one that matched; else it
    /// restores the anchor, reporting `NotFound` when an earlier query
    /// had matched.
    pub fn step(&mut self, event: SearchEvent, doc: &Document, cursor: &Position, page: usize) -> (r:
        (Position, SearchOutcome))
        requires
            cursor.y <= doc@.len(),
        ensures
            final(self).spec_anchor() == old(self).spec_anchor(),
            ({
                let q1 = query_after(old(self).spec_query(), event);
                let d1 = direction_after(old(self).spec_direction(), event);
                let pos = (cursor.x as int, cursor.y as int);
                match event {
                    SearchEvent::Cancel => {
                        &&& final(self).spec_query() == Seq::<char>::empty()
                        &&& final(self).spec_direction() == old(self).spec_direction()
                        &&& final(self).spec_last_match() == old(self).spec_last_match()
                        &&& r.0 == old(self).spec_anchor()
                        &&& r.1 == SearchOutcome::Cancelled
                    },
                    SearchEvent::Submit => {
                        let accepted = old(self).spec_query().len() > 0 && old(
                            self,
                        ).spec_last_match() == Some(old(self).spec_query());
                        &&& *final(self) == *old(self)
                        &&& r.0 == (if accepted {
                            *cursor
                        } else {
                            old(self).spec_anchor()
                        })
                        &&& r.1 == (if accepted {
                            SearchOutcome::Accepted
                        } else if old(self).spec_query().len() > 0 && old(
                            self,
                        ).spec_last_match() is Some {
                            SearchOutcome::NotFound
                        } else {
                            SearchOutcome::Cancelled
                        })
                    },
                    _ => {
                        &&& final(self).spec_query() == q1
                        &&& final(self).spec_direction() == d1
                        &&& r.1 == SearchOutcome::Pending
                        &&& (r.0.x as int, r.0.y as int) == search_step_pos(
                            doc@,
                            q1,
                            d1,
                            event,
                            pos,
                            page as int,
                        )
                        &&& final(self).spec_last_match() == (if search_probe(
                            doc@,
                            q1,
                            d1,
                            event,
                            pos,
                            page as int,
                        ) is Some {
                            Some(q1)
                        } else {
                            old(self).spec_last_match()
                        })
                    },
                }
            }),
    {
        match event {
            SearchEvent::Cancel => {
                self.query.clear();
                (self.anchor, SearchOutcome::Cancelled)
            },
            SearchEvent::Submit => {
                let accepted = self.query.len() > 0 && (match &self.last_match_query {
                    Some(l) => vec_char_eq(l, &self.query),
                    None => false,
                });
                if accepted {
                    (*cursor, SearchOutcome::Accepted)
                } else if self.query.len() > 0 && self.last_match_query.is_some() {
                    (self.anchor, SearchOutcome::NotFound)
                } else {
                    (self.anchor, SearchOutcome::Cancelled)
                }
            },
            _ => {
                match event {
                    SearchEvent::Type(c) => {
                        let u = c as u32;
                        if !(u < 0x20 || (0x7f <= u && u < 0xa0)) {
                            self.query.push(c);
                        }
                    },
                    SearchEvent::Erase => {
                        if self.query.len() > 0 {
                            self.query.pop();
                            proof {
                                assert(self.query@ =~= old(self).spec_query().drop_last());
                            }
                        }
                    },
                    _ => {},
                }
                self.direction = match event {
                    SearchEvent::Prev => SearchDirection::Backward,
                    _ => SearchDirection::Forward,
                };
                let start = if let SearchEvent::Next = event {
                    move_cursor(cursor, CursorMove::Right, doc, page)
                } else {
                    *cursor
                };
                let qs = chars_to_string(&self.query);
                match doc.find(qs.as_str(), &start, self.direction) {
                    Some(p) => {
                        self.last_match_query = Some(vec_char_copy(&self.query));
                        (p, SearchOutcome::Pending)
                    },
                    None => {
                        let back = if let SearchEvent::Next = event {
                            move_cursor(&start, CursorMove::Left, doc, page)
                        } else {
                            *cursor
                        };
                        (back, SearchOutcome::Pending)
                    },
                }
            },
        }
    }
}

/// Whether two character vectors hold the same characters.
fn vec_char_eq(a: &Vec<char>, b: &Vec<char>) -> (r: bool)
    ensures
        r == (a@ == b@),
{
    if a.len() != b.len() {
        return false;
    }
    let mut i: usize = 0;
    while i < a.len()
        invariant
            i <= a@.len(),
            a@.len() == b@.len(),
            forall|j: int| 0 <= j < i ==> a@[j] == b@[j],
        decreases a@.len() - i,
    {
        if a[i] != b[i] {
            return false;
        }
        i = i + 1;
    }
    proof {
        assert(a@ =~= b@);
    }
    true
}

/// A fresh vector holding the same characters.
fn vec_char_copy(a: &Vec<char>) -> (r: Vec<char>)
    ensures
        r@ == a@,
{
    let mut r: Vec<char> = Vec::new();
    let mut i: usize = 0;
    while i < a.len()
        invariant
            i <= a@.len(),
            r@ == a@.take(i as int),
        decreases a@.len() - i,
    {
        r.push(a[i]);
        proof {
            assert(r@ =~= a@.take(i as int + 1));
        }
        i = i + 1;
    }
    proof {
        assert(a@.take(i as int) =~= a@);
    }
    r
}

} // verus!
