use vstd::prelude::*;
use vstd::string::StrSliceExecFns;

use crate::row::{chars_to_string, clusters_of, opt_as_int, row_find, Row};
use crate::row::{boundary_cluster, cluster_offset, is_match_at, last_match, lemma_boundary_found, lemma_row_find_fwd_match, lemma_single_flat, lemma_single_offsets, single_char_row};
use crate::{Position, SearchDirection};

verus! {

/// The in-memory document: an ordered sequence of rows (index = row
/// number), the optional path it came from, and a dirty flag that is
/// true iff the content differs from the last successful save.
pub struct Document {
    rows: Vec<Row>,
    pub file_name: Option<String>,
    dirty: bool,
}

impl View for Document {
    type V = Seq<Seq<Seq<char>>>;

    closed spec fn view(&self) -> Seq<Seq<Seq<char>>> {
        self.rows@.map_values(|r: Row| r@)
    }
}

/// The rows after a plain character is inserted at column `x` of row
/// `y`: one past the last row appends a fresh one-character row, a row
/// further out leaves the document unchanged.
pub open spec fn doc_insert_char(
    rows: Seq<Seq<Seq<char>>>,
    x: int,
    y: int,
    c: char,
) -> Seq<Seq<Seq<char>>> {
    if y > rows.len() {
        rows
    } else if y == rows.len() {
        rows.push(seq![seq![c]])
    } else {
        rows.update(
            y,
            rows[y].insert(if x < rows[y].len() { x } else { rows[y].len() as int }, seq![c]),
        )
    }
}

/// The rows after a newline is inserted at column `x` of row `y`: the
/// row splits there, its remainder becoming a new row right after it.
/// One past the last row appends an empty row; a row further out leaves
/// the document unchanged.
pub open spec fn doc_insert_newline(rows: Seq<Seq<Seq<char>>>, x: int, y: int) -> Seq<
    Seq<Seq<char>>,
> {
    if y > rows.len() {
        rows
    } else if y == rows.len() {
        rows.push(Seq::empty())
    } else {
        let k = if x < rows[y].len() {
            x
        } else {
            rows[y].len() as int
        };
        rows.update(y, rows[y].subrange(0, k)).insert(
            y + 1,
            rows[y].subrange(k, rows[y].len() as int),
        )
    }
}

/// The rows after `c` is inserted at column `x` of row `y`.
pub open spec fn doc_insert(rows: Seq<Seq<Seq<char>>>, x: int, y: int, c: char) -> Seq<
    Seq<Seq<char>>,
> {
    if c == '\n' {
        doc_insert_newline(rows, x, y)
    } else {
        doc_insert_char(rows, x, y, c)
    }
}

/// The rows after a deletion at column `x` of row `y`: at the end of a
/// row that is not the last, the following row merges into it;
/// otherwise the cluster at `x` goes (or nothing, past the end). A row
/// out of range leaves the document unchanged.
pub open spec fn doc_delete(rows: Seq<Seq<Seq<char>>>, x: int, y: int) -> Seq<Seq<Seq<char>>> {
    if y < 0 || y >= rows.len() {
        rows
    } else if x == rows[y].len() && y < rows.len() - 1 {
        rows.update(y, rows[y] + rows[y + 1]).remove(y + 1)
    } else {
        rows.update(
            y,
            if 0 <= x < rows[y].len() {
                rows[y].remove(x)
            } else {
                rows[y]
            },
        )
    }
}

/// What `Document::find` returns when scanning forward: the first row
/// at or after `y` with a hit, searching row `y` from column `x` and
/// every later row from its start.
pub open spec fn doc_find_fwd(rows: Seq<Seq<Seq<char>>>, q: Seq<char>, x: int, y: int) -> Option<
    (int, int),
>
    decreases rows.len() - y,
{
    if y < 0 || y >= rows.len() {
        None
    } else {
        match row_find(rows[y], q, x, SearchDirection::Forward) {
            Some(xx) => Some((xx, y)),
            None => doc_find_fwd(rows, q, 0, y + 1),
        }
    }
}

/// What `Document::find` returns when scanning backward: the first row
/// at or before `y` with a hit, searching row `y` in the columns before
/// `x` and every earlier row whole, and preferring the last occurrence
/// within a row.
pub open spec fn doc_find_bwd(rows: Seq<Seq<Seq<char>>>, q: Seq<char>, x: int, y: int) -> Option<
    (int, int),
>
    decreases y + 1,
{
    if y < 0 || y >= rows.len() {
        None
    } else {
        match row_find(rows[y], q, x, SearchDirection::Backward) {
            Some(xx) => Some((xx, y)),
            None => if y == 0 {
                None
            } else {
                doc_find_bwd(rows, q, rows[y - 1].len() as int, y - 1)
            },
        }
    }
}

/// What `Document::find` returns, for either direction; a starting row
/// out of range finds nothing.
pub open spec fn doc_find(
    rows: Seq<Seq<Seq<char>>>,
    q: Seq<char>,
    x: int,
    y: int,
    direction: SearchDirection,
) -> Option<(int, int)> {
    match direction {
        SearchDirection::Forward => doc_find_fwd(rows, q, x, y),
        SearchDirection::Backward => doc_find_bwd(rows, q, x, y),
    }
}

/// An `Option<Position>` as a mathematical pair.
pub open spec fn opt_pos(r: Option<Position>) -> Option<(int, int)> {
    match r {
        Some(p) => Some((p.x as int, p.y as int)),
        None => None,
    }
}

/// The first newline at or after offset `j`, if any.
pub open spec fn first_newline_from(s: Seq<char>, j: int) -> Option<int>
    decreases s.len() - j + 1,
{
    if j < 0 || j >= s.len() {
        None
    } else if s[j] == '\n' {
        Some(j)
    } else {
        first_newline_from(s, j + 1)
    }
}

/// A line with a carriage return left over from a two-character line
/// terminator loses it.
pub open spec fn strip_cr(l: Seq<char>) -> Seq<char> {
    if l.len() > 0 && l.last() == '\r' {
        l.drop_last()
    } else {
        l
    }
}

/// The lines of a text: divided at every newline, a carriage return
/// directly before a newline belonging to the terminator, and the final
/// terminator producing no further line, so an empty text has no lines
/// at all and a trailing terminator is not stored.
pub open spec fn lines_of(s: Seq<char>) -> Seq<Seq<char>>
    decreases s.len(),
    via lines_of_decreases
{
    if s.len() == 0 {
        Seq::empty()
    } else {
        match first_newline_from(s, 0) {
            None => seq![s],
            Some(i) => seq![strip_cr(s.subrange(0, i))] + lines_of(
                s.subrange(i + 1, s.len() as int),
            ),
        }
    }
}

/// A newline `first_newline_from` returns is a real one: at or after
/// `j`, within the text, and a `'\n'`.
proof fn lemma_first_newline_range(s: Seq<char>, j: int, k: int)
    requires
        0 <= j,
        first_newline_from(s, j) == Some(k),
    ensures
        j <= k < s.len(),
        s[k] == '\n',
    decreases s.len() - j + 1,
{
    if j < s.len() && s[j] != '\n' {
        lemma_first_newline_range(s, j + 1, k);
    }
}

#[via_fn]
proof fn lines_of_decreases(s: Seq<char>) {
    if s.len() > 0 {
        if let Some(i) = first_newline_from(s, 0) {
            lemma_first_newline_range(s, 0, i);
        }
    }
}

/// A newline at `k` with none before it (from `j` on) is what
/// `first_newline_from` returns.
proof fn lemma_first_newline_found(s: Seq<char>, j: int, k: int)
    requires
        0 <= j <= k < s.len(),
        s[k] == '\n',
        forall|i: int| j <= i < k ==> s[i] != '\n',
    ensures
        first_newline_from(s, j) == Some(k),
    decreases k - j,
{
    if j < k {
        lemma_first_newline_found(s, j + 1, k);
    }
}

/// With no newline at or after `j`, `first_newline_from` returns
/// nothing.
proof fn lemma_first_newline_none(s: Seq<char>, j: int)
    requires
        0 <= j,
        forall|i: int| j <= i < s.len() ==> s[i] != '\n',
    ensures
        first_newline_from(s, j) is None,
    decreases s.len() - j + 1,
{
    if j < s.len() {
        lemma_first_newline_none(s, j + 1);
    }
}

impl Default for Document {
    /// An empty document with no associated path.
    fn default() -> (r: Self)
        ensures
            r@ == Seq::<Seq<Seq<char>>>::empty(),
            !r.spec_dirty(),
            r.spec_file_name() is None,
    {
        let r = Document { rows: Vec::new(), file_name: None, dirty: false };
        proof {
            assert(r@ =~= Seq::<Seq<Seq<char>>>::empty());
        }
        r
    }
}

impl Document {
    /// Whether the content differs from the last successful save.
    pub closed spec fn spec_dirty(&self) -> bool {
        self.dirty
    }

    /// The path associated with the document, if any.
    pub closed spec fn spec_file_name(&self) -> Option<String> {
        self.file_name
    }

    /// The row at `index`, if there is one.
    pub fn row(&self, index: usize) -> (r: Option<&Row>)
        ensures
            match r {
                Some(row) => index < self@.len() && row@ == self@[index as int],
                None => index >= self@.len(),
            },
    {
        if index < self.rows.len() {
            Some(&self.rows[index])
        } else {
            None
        }
    }

    /// The number of rows.
    pub fn len(&self) -> (r: usize)
        ensures
            r == self@.len(),
    {
        self.rows.len()
    }

    /// Whether the document has no rows at all.
    pub fn is_empty(&self) -> (r: bool)
        ensures
            r == (self@.len() == 0),
    {
        self.rows.is_empty()
    }

    /// Whether the content differs from the last successful save.
    pub fn is_dirty(&self) -> (r: bool)
        ensures
            r == self.spec_dirty(),
    {
        self.dirty
    }

    /// Records a successful save: the content now matches the file.
    pub fn mark_saved(&mut self)
        ensures
            final(self)@ == old(self)@,
            !final(self).spec_dirty(),
            final(self).spec_file_name() == old(self).spec_file_name(),
    {
        self.dirty = false;
    }

    /// Inserts `c` at `at`: a newline splits the addressed row, any
    /// other character grows it by one cluster. A row one past the end
    /// appends; anything further out is ignored. Reaching a row marks
    /// the document dirty.
    pub fn insert(&mut self, at: &Position, c: char)
        ensures
            final(self)@ == doc_insert(old(self)@, at.x as int, at.y as int, c),
            final(self).spec_dirty() == (old(self).spec_dirty() || at.y <= old(self)@.len()),
            final(self).spec_file_name() == old(self).spec_file_name(),
    {
        if at.y > self.rows.len() {
            return;
        }
        self.dirty = true;
        if c == '\n' {
            self.insert_newline(at);
            return;
        }
        if at.y == self.rows.len() {
            let mut row = Row::default();
            row.insert(0, c);
            let ghost n = self@.len() as int;
            self.rows.push(row);
            proof {
                assert(row@ =~= seq![seq![c]]);
                assert(self@ =~= old(self)@.push(seq![seq![c]]));
            }
        } else {
            let mut row = self.rows.remove(at.y);
            row.insert(at.x, c);
            self.rows.insert(at.y, row);
            proof {
                assert(self@ =~= doc_insert_char(old(self)@, at.x as int, at.y as int, c));
            }
        }
    }

    /// Splits the row at `at.y` at column `at.x`, the remainder becoming
    /// a new row right after it; one past the last row appends an empty
    /// row.
    fn insert_newline(&mut self, at: &Position)
        requires
            at.y <= old(self)@.len(),
        ensures
            final(self)@ == doc_insert_newline(old(self)@, at.x as int, at.y as int),
            final(self).spec_dirty() == old(self).spec_dirty(),
            final(self).spec_file_name() == old(self).spec_file_name(),
    {
        if at.y == self.rows.len() {
            self.rows.push(Row::default());
            proof {
                assert(self@ =~= old(self)@.push(Seq::empty()));
            }
            return;
        }
        let mut row = self.rows.remove(at.y);
        let new_row = row.cut(at.x);
        self.rows.insert(at.y, row);
        self.rows.insert(at.y + 1, new_row);
        proof {
            assert(self@ =~= doc_insert_newline(old(self)@, at.x as int, at.y as int));
        }
    }

    /// Deletes at `at`: at the end of a row that is not the last, the
    /// next row merges into it; otherwise the cluster at the column
    /// goes. A row out of range is ignored; reaching one marks the
    /// document dirty.
    pub fn delete(&mut self, at: &Position)
        ensures
            final(self)@ == doc_delete(old(self)@, at.x as int, at.y as int),
            final(self).spec_dirty() == (old(self).spec_dirty() || at.y < old(self)@.len()),
            final(self).spec_file_name() == old(self).spec_file_name(),
    {
        if at.y >= self.rows.len() {
            return;
        }
        self.dirty = true;
        let row_len = self.rows[at.y].len();
        if at.x == row_len && at.y + 1 < self.rows.len() {
            let next = self.rows.remove(at.y + 1);
            let mut row = self.rows.remove(at.y);
            row.append(&next);
            self.rows.insert(at.y, row);
            proof {
                assert(self@ =~= doc_delete(old(self)@, at.x as int, at.y as int));
            }
        } else {
            let mut row = self.rows.remove(at.y);
            row.delete(at.x);
            self.rows.insert(at.y, row);
            proof {
                assert(self@ =~= doc_delete(old(self)@, at.x as int, at.y as int));
            }
        }
    }

    /// Looks the query up across the rows, starting at `at` and moving
    /// in the given direction. Forward scans row `at.y` from column
    /// `at.x` and then each following row from its start; backward
    /// scans the columns of row `at.y` before `at.x` and then each
    /// earlier row whole, preferring the last occurrence within a row.
    /// The first row that yields a hit wins.
    pub fn find(&self, query: &str, at: &Position, direction: SearchDirection) -> (r: Option<
        Position,
    >)
        ensures
            opt_pos(r) == doc_find(self@, query@, at.x as int, at.y as int, direction),
    {
        let n = self.rows.len();
        if at.y >= n {
            return None;
        }
        match direction {
            SearchDirection::Forward => {
                let mut y = at.y;
                let mut x_start = at.x;
                while y < n
                    invariant
                        at.y <= y,
                        n == self@.len(),
                        direction == SearchDirection::Forward,
                        doc_find_fwd(self@, query@, at.x as int, at.y as int) == doc_find_fwd(
                            self@,
                            query@,
                            x_start as int,
                            y as int,
                        ),
                    decreases n - y,
                {
                    match self.rows[y].find(query, x_start, SearchDirection::Forward) {
                        Some(x) => {
                            return Some(Position { x, y });
                        },
                        None => {
                            x_start = 0;
                            y = y + 1;
                        },
                    }
                }
                None
            },
            SearchDirection::Backward => {
                let mut y = at.y;
                let mut x_start = at.x;
                loop
                    invariant
                        y <= at.y < n,
                        n == self@.len(),
                        direction == SearchDirection::Backward,
                        doc_find_bwd(self@, query@, at.x as int, at.y as int) == doc_find_bwd(
                            self@,
                            query@,
                            x_start as int,
                            y as int,
                        ),
                    decreases y,
                {
                    match self.rows[y].find(query, x_start, SearchDirection::Backward) {
                        Some(x) => {
                            return Some(Position { x, y });
                        },
                        None => {
                            if y == 0 {
                                return None;
                            }
                            y = y - 1;
                            x_start = self.rows[y].len();
                        },
                    }
                }
            },
        }
    }

    /// Builds a document from a text, one row per line, the line
    /// terminators themselves not being stored. The document starts
    /// clean and with no associated path.
    pub fn from_text(contents: &str) -> (doc: Document)
        ensures
            doc@.len() == lines_of(contents@).len(),
            forall|i: int|
                0 <= i < doc@.len() ==> doc@[i] == clusters_of(lines_of(contents@)[i]),
            forall|i: int| 0 <= i < doc@.len() ==> doc@[i].flatten() == lines_of(contents@)[i],
            !doc.spec_dirty(),
            doc.spec_file_name() is None,
    {
        let ghost s = contents@;
        let ghost all = lines_of(s);
        let n = contents.unicode_len();
        let mut rows: Vec<Row> = Vec::new();
        let mut cur: Vec<char> = Vec::new();
        let ghost mut done: Seq<Seq<char>> = Seq::empty();
        let mut i: usize = 0;
        let mut ls: usize = 0;
        proof {
            assert(s.subrange(0, n as int) =~= s);
            assert(all == done + lines_of(s.subrange(0 as int, n as int)));
        }
        while i < n
            invariant
                s == contents@,
                all == lines_of(s),
                n == s.len(),
                ls <= i <= n,
                cur@ == s.subrange(ls as int, i as int),
                forall|j: int| ls <= j < i ==> s[j] != '\n',
                all == done + lines_of(s.subrange(ls as int, n as int)),
                rows@.len() == done.len(),
                forall|j: int| 0 <= j < done.len() ==> rows@[j]@ == clusters_of(done[j]),
                forall|j: int| 0 <= j < done.len() ==> rows@[j]@.flatten() == done[j],
            decreases n - i,
        {
            let c = contents.get_char(i);
            if c == '\n' {
                proof {
                    let rest = s.subrange(ls as int, n as int);
                    lemma_first_newline_found(rest, 0, i - ls);
                    assert(rest.subrange(0, i - ls) =~= s.subrange(ls as int, i as int));
                    assert(rest.subrange(i - ls + 1, rest.len() as int) =~= s.subrange(
                        i as int + 1,
                        n as int,
                    ));
                }
                if cur.len() > 0 && cur[cur.len() - 1] == '\r' {
                    cur.pop();
                    proof {
                        assert(cur@ =~= strip_cr(s.subrange(ls as int, i as int)));
                    }
                }
                proof {
                    assert(cur@ == strip_cr(s.subrange(ls as int, i as int)));
                }
                let line = chars_to_string(&cur);
                let row = Row::from_str(line.as_str());
                rows.push(row);
                proof {
                    done = done + seq![cur@];
                    assert(lines_of(s.subrange(ls as int, n as int)) == seq![cur@] + lines_of(
                        s.subrange(i as int + 1, n as int),
                    ));
                    assert(all == done + lines_of(s.subrange(i as int + 1, n as int)));
                }
                cur.clear();
                ls = i + 1;
                proof {
                    assert(cur@ =~= s.subrange(ls as int, ls as int));
                }
            } else {
                cur.push(c);
                proof {
                    assert(cur@ =~= s.subrange(ls as int, i as int + 1));
                }
            }
            i = i + 1;
        }
        if cur.len() > 0 {
            proof {
                let rest = s.subrange(ls as int, n as int);
                lemma_first_newline_none(rest, 0);
                assert(rest =~= cur@);
                assert(lines_of(rest) == seq![cur@]);
            }
            let line = chars_to_string(&cur);
            let row = Row::from_str(line.as_str());
            rows.push(row);
            proof {
                done = done + seq![cur@];
                assert(all =~= done);
            }
        } else {
            proof {
                assert(s.subrange(ls as int, n as int) =~= cur@);
                assert(all =~= done);
            }
        }
        let doc = Document { rows, file_name: None, dirty: false };
        proof {
            assert(doc@.len() == all.len());
        }
        doc
    }
}

/// Every cluster of every row is a single character, as in a plain
/// ASCII document.
pub open spec fn single_char_clusters(rows: Seq<Seq<Seq<char>>>) -> bool {
    forall|i: int| 0 <= i < rows.len() ==> single_char_row(#[trigger] rows[i])
}

/// In a single-character document, a forward hit of `Document::find`
/// marks a real occurrence of the query in the text of the row it
/// names, and that row lies at or after the starting one.
proof fn lemma_doc_find_fwd_match(
    rows: Seq<Seq<Seq<char>>>,
    q: Seq<char>,
    x: int,
    y: int,
    x2: int,
    y2: int,
)
    requires
        single_char_clusters(rows),
        0 <= x,
        0 <= y,
        doc_find_fwd(rows, q, x, y) == Some((x2, y2)),
    ensures
        y <= y2 < rows.len(),
        0 <= x2,
        x2 + q.len() <= rows[y2].len(),
        is_match_at(rows[y2].flatten(), q, x2),
    decreases rows.len() - y,
{
    match row_find(rows[y], q, x, SearchDirection::Forward) {
        Some(xx) => {
            lemma_row_find_fwd_match(rows[y], q, x, xx);
            lemma_single_flat(rows[y]);
        },
        None => {
            lemma_doc_find_fwd_match(rows, q, 0, y + 1, x2, y2);
        },
    }
}

/// The forward and the backward search are consistent: in a document
/// whose clusters are single characters, an occurrence of a nonempty
/// query that the forward search finds, a backward search started just
/// past that occurrence's end finds again, at the very same position.
pub proof fn lemma_find_forward_backward(
    rows: Seq<Seq<Seq<char>>>,
    q: Seq<char>,
    x: int,
    y: int,
    x2: int,
    y2: int,
)
    requires
        single_char_clusters(rows),
        q.len() > 0,
        0 <= x,
        0 <= y,
        doc_find(rows, q, x, y, SearchDirection::Forward) == Some((x2, y2)),
    ensures
        doc_find(rows, q, x2 + q.len(), y2, SearchDirection::Backward) == Some((x2, y2)),
{
    lemma_doc_find_fwd_match(rows, q, x, y, x2, y2);
    let g = rows[y2];
    let t = g.flatten();
    lemma_single_flat(g);
    let at = x2 + q.len() as int;
    let pre = g.subrange(0, at);
    assert(single_char_row(pre)) by {
        assert(forall|j: int| 0 <= j < pre.len() ==> #[trigger] pre[j] == g[j]);
    }
    lemma_single_flat(pre);
    let fp = pre.flatten();
    assert(t.subrange(x2, x2 + q.len() as int) == q);
    assert(fp.subrange(x2, x2 + q.len() as int) =~= q) by {
        assert(forall|i: int|
            0 <= i < q.len() ==> #[trigger] fp[x2 + i] == pre[x2 + i][0] && pre[x2 + i] == g[x2 + i]
                && t[x2 + i] == g[x2 + i][0] && t.subrange(x2, x2 + q.len() as int)[i] == t[x2
                + i]);
    }
    assert(is_match_at(fp, q, x2));
    assert(last_match(fp, q) == Some(x2)) by {
        assert(fp.len() - q.len() == x2);
    }
    assert(boundary_cluster(pre, x2) == Some(x2)) by {
        lemma_single_offsets(pre, x2);
        assert(forall|j: int| 0 <= j < x2 ==> cluster_offset(pre, j) != x2) by {
            assert forall|j: int| 0 <= j < x2 implies cluster_offset(pre, j) != x2 by {
                lemma_single_offsets(pre, j);
            }
        }
        lemma_boundary_found(pre, x2, 0, x2);
    }
    assert(row_find(g, q, at, SearchDirection::Backward) == Some(x2));
    assert(doc_find_bwd(rows, q, at, y2) == Some((x2, y2)));
}

/// Inserting a newline and then deleting at the same position undoes
/// the split: the original rows come back, both in count and in
/// content.
pub proof fn lemma_newline_delete_inverse(rows: Seq<Seq<Seq<char>>>, x: int, y: int)
    requires
        0 <= y < rows.len(),
        0 <= x <= rows[y].len(),
    ensures
        doc_delete(doc_insert(rows, x, y, '\n'), x, y) == rows,
{
    let split = doc_insert(rows, x, y, '\n');
    let a = rows[y].subrange(0, x);
    let b = rows[y].subrange(x, rows[y].len() as int);
    assert(split == rows.update(y, a).insert(y + 1, b));
    assert(split[y] == a);
    assert(split[y + 1] == b);
    assert(a + b =~= rows[y]);
    assert(doc_delete(split, x, y) =~= rows);
}

} // verus!
