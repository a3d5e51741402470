use vstd::prelude::*;
use vstd::string::StrSliceExecFns;
use vstd::string::StringExecFns;

use crate::SearchDirection;
use unicode_segmentation::UnicodeSegmentation;

verus! {

/// The grapheme clusters that Unicode segmentation divides a text into.
/// The division is a function of the characters alone.
pub uninterp spec fn clusters_of(s: Seq<char>) -> Seq<Seq<char>>;

/// The character sequences of a vector of strings.
pub open spec fn views_of(v: Seq<String>) -> Seq<Seq<char>> {
    v.map_values(|g: String| g@)
}

/// Relies on `String::push`: it appends the character to the string.
pub assume_specification[ String::push ](s: &mut String, ch: char)
    ensures
        final(s)@ == old(s)@.push(ch),
;

/// Relies on unicode_segmentation's `UnicodeSegmentation::graphemes`
/// (extended mode): it divides the string into its grapheme clusters,
/// nonempty substrings whose concatenation is the original string.
#[verifier::external_body]
fn segment(s: &str) -> (r: Vec<String>)
    ensures
        views_of(r@) == clusters_of(s@),
        views_of(r@).flatten() == s@,
        forall|i: int| 0 <= i < r@.len() ==> r@[i]@.len() > 0,
{
    s.graphemes(true).map(String::from).collect()
}

/// One row of the document, held as its sequence of grapheme clusters.
/// The column index of every operation counts clusters, never bytes or
/// code points, so positions stay stable under multi-byte characters.
pub struct Row {
    clusters: Vec<String>,
}

impl View for Row {
    type V = Seq<Seq<char>>;

    closed spec fn view(&self) -> Seq<Seq<char>> {
        views_of(self.clusters@)
    }
}

impl Default for Row {
    /// An empty row.
    fn default() -> (r: Self)
        ensures
            r@ == Seq::<Seq<char>>::empty(),
    {
        let r = Row { clusters: Vec::new() };
        proof {
            assert(r@ =~= Seq::<Seq<char>>::empty());
        }
        r
    }
}

impl Row {
    /// Builds a row from a text by dividing it into grapheme clusters.
    pub fn from_str(s: &str) -> (r: Row)
        ensures
            r@ == clusters_of(s@),
            r@.flatten() == s@,
            forall|i: int| 0 <= i < r@.len() ==> r@[i].len() > 0,
    {
        let clusters = segment(s);
        Row { clusters }
    }

    /// The number of grapheme clusters in the row.
    pub fn len(&self) -> (r: usize)
        ensures
            r == self@.len(),
    {
        self.clusters.len()
    }

    /// Inserts `c` as a cluster of its own before the cluster at index
    /// `at`; an index at or past the end appends. The length always grows
    /// by one.
    pub fn insert(&mut self, at: usize, c: char)
        ensures
            final(self)@ == old(self)@.insert(
                if at < old(self)@.len() { at as int } else { old(self)@.len() as int },
                seq![c],
            ),
            final(self)@.len() == old(self)@.len() + 1,
    {
        let mut g = String::new();
        g.push(c);
        proof {
            assert(g@ =~= seq![c]);
        }
        if at >= self.clusters.len() {
            let ghost n = self.clusters@.len() as int;
            self.clusters.push(g);
            proof {
                assert(self@ =~= old(self)@.insert(n, seq![c]));
            }
        } else {
            self.clusters.insert(at, g);
            proof {
                assert(self@ =~= old(self)@.insert(at as int, seq![c]));
            }
        }
    }

    /// Removes the cluster at index `at`. An index at or past the end is
    /// tolerated as a no-op rather than an error.
    pub fn delete(&mut self, at: usize)
        ensures
            at < old(self)@.len() ==> final(self)@ == old(self)@.remove(at as int),
            at >= old(self)@.len() ==> final(self)@ == old(self)@,
    {
        if at >= self.clusters.len() {
            return;
        }
        self.clusters.remove(at);
        proof {
            assert(self@ =~= old(self)@.remove(at as int));
        }
    }

    /// Concatenates `other`'s text after `self`; the length becomes the
    /// sum of the two lengths.
    pub fn append(&mut self, other: &Self)
        ensures
            final(self)@ == old(self)@ + other@,
    {
        let mut i: usize = 0;
        while i < other.clusters.len()
            invariant
                i <= other.clusters@.len(),
                self.clusters@ == old(self).clusters@ + other.clusters@.take(i as int),
            decreases other.clusters@.len() - i,
        {
            self.clusters.push(other.clusters[i].clone());
            proof {
                assert(self.clusters@ =~= old(self).clusters@ + other.clusters@.take(
                    i as int + 1,
                ));
            }
            i = i + 1;
        }
        proof {
            assert(other.clusters@.take(i as int) =~= other.clusters@);
            assert(self@ =~= old(self)@ + other@);
        }
    }

    /// Truncates `self` to its first `at` clusters and returns a new row
    /// holding the remainder. An index past the end leaves `self` whole
    /// and returns an empty row.
    pub fn cut(&mut self, at: usize) -> (r: Row)
        ensures
            final(self)@ == old(self)@.subrange(
                0,
                if at < old(self)@.len() { at as int } else { old(self)@.len() as int },
            ),
            r@ == old(self)@.subrange(
                if at < old(self)@.len() { at as int } else { old(self)@.len() as int },
                old(self)@.len() as int,
            ),
    {
        let n = self.clusters.len();
        let k = if at < n {
            at
        } else {
            n
        };
        let rest = self.clusters.split_off(k);
        let r = Row { clusters: rest };
        proof {
            let ghost ki = k as int;
            let ghost m = old(self)@.len() as int;
            assert(self@ =~= old(self)@.subrange(0, ki));
            assert(r@ =~= old(self)@.subrange(ki, m));
        }
        r
    }

    /// Returns the text spanning cluster indices `[start, end)`, with
    /// `end` clamped so it never exceeds the stored row and `start`
    /// clamped so it never exceeds `end`. Callers may pass bounds on any
    /// scale; whatever lies past the end of the row is clamped away the
    /// same way.
    pub fn render(&self, start: usize, end: usize) -> (r: String)
        ensures
            r@ == render_spec(self@, start as int, end as int),
    {
        let n = self.clusters.len();
        let e = if end < n {
            end
        } else {
            n
        };
        let s = if start < e {
            start
        } else {
            e
        };
        let mut out = String::new();
        let mut i: usize = s;
        proof {
            assert(out@ =~= self@.subrange(s as int, s as int).flatten());
        }
        while i < e
            invariant
                s <= i <= e <= n,
                n == self.clusters@.len(),
                out@ == self@.subrange(s as int, i as int).flatten(),
            decreases e - i,
        {
            out.append(self.clusters[i].as_str());
            proof {
                let ghost pre = self@.subrange(s as int, i as int);
                assert(self@.subrange(s as int, i as int + 1) =~= pre.push(self@[i as int]));
                pre.lemma_flatten_push(self@[i as int]);
            }
            i = i + 1;
        }
        out
    }
}

/// The text that `render` returns for the bounds `[start, end)`: the
/// concatenation of the clusters in the clamped range.
pub open spec fn render_spec(g: Seq<Seq<char>>, start: int, end: int) -> Seq<char> {
    let e = if end < g.len() { end } else { g.len() as int };
    let s = if start < e { start } else { e };
    g.subrange(s, e).flatten()
}

/// The characters of `s`, one by one.
fn str_chars(s: &str) -> (r: Vec<char>)
    ensures
        r@ == s@,
{
    let n = s.unicode_len();
    let mut r: Vec<char> = Vec::new();
    let mut i: usize = 0;
    while i < n
        invariant
            n == s@.len(),
            i <= n,
            r@ == s@.take(i as int),
        decreases n - i,
    {
        r.push(s.get_char(i));
        proof {
            assert(r@ =~= s@.take(i as int + 1));
        }
        i = i + 1;
    }
    proof {
        assert(s@.take(n as int) =~= s@);
    }
    r
}

/// A string holding exactly the given characters.
pub(crate) fn chars_to_string(v: &Vec<char>) -> (s: String)
    ensures
        s@ == v@,
{
    let mut s = String::new();
    let mut i: usize = 0;
    while i < v.len()
        invariant
            i <= v@.len(),
            s@ == v@.take(i as int),
        decreases v@.len() - i,
    {
        s.push(v[i]);
        proof {
            assert(s@ =~= v@.take(i as int + 1));
        }
        i = i + 1;
    }
    proof {
        assert(v@.take(i as int) =~= v@);
    }
    s
}

/// `q` occurs in `text` at character offset `i`.
pub open spec fn is_match_at(text: Seq<char>, q: Seq<char>, i: int) -> bool {
    0 <= i && i + q.len() <= text.len() && text.subrange(i, i + q.len() as int) == q
}

/// The least offset at or after `from` where `q` occurs in `text`.
pub open spec fn first_match_from(text: Seq<char>, q: Seq<char>, from: int) -> Option<int>
    decreases text.len() - from + 1,
{
    if from < 0 || from + q.len() > text.len() {
        None
    } else if is_match_at(text, q, from) {
        Some(from)
    } else {
        first_match_from(text, q, from + 1)
    }
}

/// The least offset at which `q` occurs in `text`.
pub open spec fn first_match(text: Seq<char>, q: Seq<char>) -> Option<int> {
    first_match_from(text, q, 0)
}

/// The greatest offset at or before `from` where `q` occurs in `text`.
pub open spec fn last_match_before(text: Seq<char>, q: Seq<char>, from: int) -> Option<int>
    decreases from + 1,
{
    if from < 0 {
        None
    } else if is_match_at(text, q, from) {
        Some(from)
    } else {
        last_match_before(text, q, from - 1)
    }
}

/// The greatest offset at which `q` occurs in `text`.
pub open spec fn last_match(text: Seq<char>, q: Seq<char>) -> Option<int> {
    last_match_before(text, q, text.len() - q.len())
}

/// The character offset at which cluster `k` starts within the text of
/// the clusters `g`.
pub open spec fn cluster_offset(g: Seq<Seq<char>>, k: int) -> int
    decreases k,
{
    if k <= 0 {
        0
    } else {
        cluster_offset(g, k - 1) + g[k - 1].len()
    }
}

/// The first cluster index at or after `k` whose starting offset is
/// exactly `m`, if any.
pub open spec fn boundary_from(g: Seq<Seq<char>>, m: int, k: int) -> Option<int>
    decreases g.len() - k,
{
    if k < 0 || k >= g.len() {
        None
    } else if cluster_offset(g, k) == m {
        Some(k)
    } else {
        boundary_from(g, m, k + 1)
    }
}

/// The index of the cluster that starts exactly at character offset `m`,
/// if any.
pub open spec fn boundary_cluster(g: Seq<Seq<char>>, m: int) -> Option<int> {
    boundary_from(g, m, 0)
}

/// An `Option<usize>` as a mathematical `Option<int>`.
pub open spec fn opt_as_int(r: Option<usize>) -> Option<int> {
    match r {
        Some(x) => Some(x as int),
        None => None,
    }
}

/// What `Row::find` returns. Forward: the first occurrence of `q` in the
/// text of the clusters from `at` on; backward: the last occurrence in
/// the text of the clusters before `at`. Either way the occurrence
/// counts only if it starts exactly at a cluster boundary, and the
/// cluster index of that boundary is the result.
pub open spec fn row_find(
    g: Seq<Seq<char>>,
    q: Seq<char>,
    at: int,
    direction: SearchDirection,
) -> Option<int> {
    if at > g.len() {
        None
    } else {
        match direction {
            SearchDirection::Forward => {
                let tail = g.subrange(at, g.len() as int);
                match first_match(tail.flatten(), q) {
                    Some(m) => match boundary_cluster(tail, m) {
                        Some(k) => Some(at + k),
                        None => None,
                    },
                    None => None,
                }
            },
            SearchDirection::Backward => {
                let pre = g.subrange(0, at);
                match last_match(pre.flatten(), q) {
                    Some(m) => boundary_cluster(pre, m),
                    None => None,
                }
            },
        }
    }
}

impl Row {
    /// The text of the clusters `[lo, hi)` of the row, with the starting
    /// offset of each cluster of that range within it.
    fn flatten_range(&self, lo: usize, hi: usize) -> (res: (Vec<char>, Vec<usize>))
        requires
            lo <= hi <= self@.len(),
        ensures
            res.0@ == self@.subrange(lo as int, hi as int).flatten(),
            res.1@.len() == hi - lo,
            forall|j: int|
                0 <= j < res.1@.len() ==> res.1@[j] == cluster_offset(
                    self@.subrange(lo as int, hi as int),
                    j,
                ),
    {
        let ghost range = self@.subrange(lo as int, hi as int);
        let mut flat: Vec<char> = Vec::new();
        let mut offs: Vec<usize> = Vec::new();
        let mut k: usize = lo;
        proof {
            assert(flat@ =~= range.take(0).flatten());
        }
        while k < hi
            invariant
                lo <= k <= hi <= self@.len(),
                range == self@.subrange(lo as int, hi as int),
                flat@ == range.take(k - lo).flatten(),
                offs@.len() == k - lo,
                forall|j: int| 0 <= j < offs@.len() ==> offs@[j] == cluster_offset(range, j),
            decreases hi - k,
        {
            proof {
                lemma_cluster_offset_flatten(range, k - lo);
            }
            offs.push(flat.len());
            let gs = self.clusters[k].as_str();
            let cn = gs.unicode_len();
            let mut j: usize = 0;
            while j < cn
                invariant
                    j <= cn,
                    cn == gs@.len(),
                    flat@ == range.take(k - lo).flatten() + gs@.take(j as int),
                decreases cn - j,
            {
                flat.push(gs.get_char(j));
                proof {
                    assert(gs@.take(j as int + 1) =~= gs@.take(j as int).push(gs@[j as int]));
                }
                j = j + 1;
            }
            proof {
                assert(gs@.take(cn as int) =~= gs@);
                assert(range[k - lo] == gs@);
                assert(range.take(k - lo + 1) =~= range.take(k - lo).push(range[k - lo]));
                range.take(k - lo).lemma_flatten_push(range[k - lo]);
            }
            k = k + 1;
        }
        proof {
            assert(range.take(hi - lo) =~= range);
        }
        (flat, offs)
    }

    /// Looks the query up in the text of the row. Forward: scans the
    /// clusters from `at` to the end for the first occurrence; backward:
    /// scans the clusters before `at` for the last occurrence. The result
    /// is the cluster index at which the occurrence starts, or nothing
    /// when there is none or when the occurrence does not start at a
    /// cluster boundary.
    pub fn find(&self, query: &str, at: usize, direction: SearchDirection) -> (r: Option<usize>)
        ensures
            opt_as_int(r) == row_find(self@, query@, at as int, direction),
    {
        let n = self.clusters.len();
        if at > n {
            return None;
        }
        let q = str_chars(query);
        match direction {
            SearchDirection::Forward => {
                let (flat, offs) = self.flatten_range(at, n);
                let ghost tail = self@.subrange(at as int, n as int);
                match find_first(&flat, &q) {
                    Some(m) => {
                        match boundary_lookup(&offs, m, Ghost(tail)) {
                            Some(k) => Some(at + k),
                            None => None,
                        }
                    },
                    None => None,
                }
            },
            SearchDirection::Backward => {
                let (flat, offs) = self.flatten_range(0, at);
                let ghost pre = self@.subrange(0, at as int);
                match find_last(&flat, &q) {
                    Some(m) => boundary_lookup(&offs, m, Ghost(pre)),
                    None => None,
                }
            },
        }
    }
}

impl Row {
    /// The row's text, encoded as UTF-8 bytes.
    pub fn as_bytes(&self) -> (r: Vec<u8>)
        ensures
            r@ == vstd::utf8::encode_utf8(self@.flatten()),
    {
        let s = self.render(0, self.len());
        proof {
            assert(self@.subrange(0, self@.len() as int) =~= self@);
        }
        s.as_str().as_bytes_vec()
    }
}

/// Rendering a row whole reconstructs exactly the text it was built
/// from: for the clusters `g` of a text `t`, the full render is `t`.
pub proof fn lemma_render_whole(g: Seq<Seq<char>>, t: Seq<char>)
    requires
        g.flatten() == t,
    ensures
        render_spec(g, 0, g.len() as int) == t,
{
    assert(g.subrange(0, g.len() as int) =~= g);
}

/// Inserting a cluster and then deleting at the same index restores the
/// row's content and length.
pub proof fn lemma_insert_delete_identity(g: Seq<Seq<char>>, i: int, c: char)
    requires
        0 <= i <= g.len(),
    ensures
        g.insert(i, seq![c]).remove(i) == g,
{
    assert(g.insert(i, seq![c]).remove(i) =~= g);
}

/// Cutting a row at any index and appending the remainder back restores
/// the row's content.
pub proof fn lemma_cut_append_identity(g: Seq<Seq<char>>, k: int)
    requires
        0 <= k <= g.len(),
    ensures
        g.subrange(0, k) + g.subrange(k, g.len() as int) == g,
{
    assert(g.subrange(0, k) + g.subrange(k, g.len() as int) =~= g);
}


/// Every cluster of the row is a single character, as in a row of
/// plain ASCII text.
pub open spec fn single_char_row(g: Seq<Seq<char>>) -> bool {
    forall|j: int| 0 <= j < g.len() ==> (#[trigger] g[j]).len() == 1
}

/// In a single-character row the text is as long as the row and reads
/// the clusters off one by one.
pub(crate) proof fn lemma_single_flat(g: Seq<Seq<char>>)
    requires
        single_char_row(g),
    ensures
        g.flatten().len() == g.len(),
        forall|i: int| 0 <= i < g.len() ==> #[trigger] g.flatten()[i] == g[i][0],
    decreases g.len(),
{
    if g.len() == 0 {
    } else {
        let d = g.drop_last();
        assert(single_char_row(d)) by {
            assert(forall|j: int| 0 <= j < d.len() ==> #[trigger] d[j] == g[j]);
        }
        lemma_single_flat(d);
        assert(g =~= d.push(g.last()));
        d.lemma_flatten_push(g.last());
        assert(g.flatten() == d.flatten() + g.last());
    }
}

/// In a single-character row every cluster starts at the offset that
/// equals its own index.
pub(crate) proof fn lemma_single_offsets(g: Seq<Seq<char>>, k: int)
    requires
        single_char_row(g),
        0 <= k <= g.len(),
    ensures
        cluster_offset(g, k) == k,
    decreases k,
{
    if k > 0 {
        lemma_single_offsets(g, k - 1);
    }
}

/// What `first_match_from` returns is a real match, at or after `from`.
pub(crate) proof fn lemma_first_match_from_inv(text: Seq<char>, q: Seq<char>, from: int, m: int)
    requires
        0 <= from,
        first_match_from(text, q, from) == Some(m),
    ensures
        from <= m,
        is_match_at(text, q, m),
    decreases text.len() - from + 1,
{
    if from + q.len() > text.len() {
    } else if is_match_at(text, q, from) {
    } else {
        lemma_first_match_from_inv(text, q, from + 1, m);
    }
}

/// What `boundary_from` returns is a real boundary, at or after `j`.
pub(crate) proof fn lemma_boundary_from_inv(g: Seq<Seq<char>>, m: int, j: int, k: int)
    requires
        0 <= j,
        boundary_from(g, m, j) == Some(k),
    ensures
        j <= k < g.len(),
        cluster_offset(g, k) == m,
    decreases g.len() - j + 1,
{
    if j < g.len() && cluster_offset(g, j) != m {
        lemma_boundary_from_inv(g, m, j + 1, k);
    }
}

/// In a single-character row, a forward hit of `Row::find` marks a
/// real occurrence of the query in the row's text, at or after the
/// starting column.
pub(crate) proof fn lemma_row_find_fwd_match(g: Seq<Seq<char>>, q: Seq<char>, a: int, x2: int)
    requires
        single_char_row(g),
        0 <= a,
        row_find(g, q, a, SearchDirection::Forward) == Some(x2),
    ensures
        a <= x2,
        x2 + q.len() <= g.len(),
        is_match_at(g.flatten(), q, x2),
{
    let tail = g.subrange(a, g.len() as int);
    assert(single_char_row(tail)) by {
        assert(forall|j: int| 0 <= j < tail.len() ==> #[trigger] tail[j] == g[a + j]);
    }
    let ft = tail.flatten();
    lemma_single_flat(tail);
    lemma_single_flat(g);
    match first_match(ft, q) {
        None => {
            assert(false);
        },
        Some(m) => {
            lemma_first_match_from_inv(ft, q, 0, m);
            match boundary_cluster(tail, m) {
                None => {
                    assert(false);
                },
                Some(k) => {
                    lemma_boundary_from_inv(tail, m, 0, k);
                    lemma_single_offsets(tail, k);
                    assert(m == k);
                    assert(x2 == a + k);
                    assert(ft.subrange(m, m + q.len() as int) == q);
                    assert(g.flatten().subrange(x2, x2 + q.len() as int) =~= q) by {
                        assert(forall|i: int|
                            0 <= i < q.len() ==> #[trigger] g.flatten().subrange(
                                x2,
                                x2 + q.len() as int,
                            )[i] == ft.subrange(m, m + q.len() as int)[i]) by {
                            assert(forall|i: int|
                                0 <= i < q.len() ==> #[trigger] ft[m + i] == tail[m + i][0]
                                    && tail[m + i] == g[a + m + i] && g.flatten()[a + m + i] == g[a
                                    + m + i][0]);
                        }
                    }
                },
            }
        },
    }
}

/// The index of the cluster whose recorded starting offset is exactly
/// `m`, if any.
fn boundary_lookup(offs: &Vec<usize>, m: usize, Ghost(g): Ghost<Seq<Seq<char>>>) -> (r: Option<
    usize,
>)
    requires
        offs@.len() == g.len(),
        forall|j: int| 0 <= j < g.len() ==> offs@[j] == cluster_offset(g, j),
    ensures
        opt_as_int(r) == boundary_cluster(g, m as int),
        r is Some ==> r->Some_0 < g.len(),
{
    let mut k: usize = 0;
    while k < offs.len()
        invariant
            k <= offs@.len(),
            offs@.len() == g.len(),
            forall|j: int| 0 <= j < g.len() ==> offs@[j] == cluster_offset(g, j),
            forall|j: int| 0 <= j < k ==> cluster_offset(g, j) != m,
        decreases offs@.len() - k,
    {
        if offs[k] == m {
            proof {
                lemma_boundary_found(g, m as int, 0, k as int);
            }
            return Some(k);
        }
        k = k + 1;
    }
    proof {
        lemma_boundary_none(g, m as int, 0);
    }
    None
}

/// A match at `m` with none before it (from `from` on) is what
/// `first_match_from` returns.
proof fn lemma_first_match_found(text: Seq<char>, q: Seq<char>, from: int, m: int)
    requires
        0 <= from <= m,
        is_match_at(text, q, m),
        forall|i: int| from <= i < m ==> !is_match_at(text, q, i),
    ensures
        first_match_from(text, q, from) == Some(m),
    decreases m - from,
{
    if from < m {
        lemma_first_match_found(text, q, from + 1, m);
    }
}

/// With no match anywhere at or after `from`, `first_match_from` returns
/// nothing.
proof fn lemma_first_match_none(text: Seq<char>, q: Seq<char>, from: int)
    requires
        0 <= from,
        forall|i: int| from <= i ==> !is_match_at(text, q, i),
    ensures
        first_match_from(text, q, from) is None,
    decreases text.len() - from + 1,
{
    if !(from + q.len() > text.len()) {
        lemma_first_match_none(text, q, from + 1);
    }
}

/// A match at `m` with none after it (up to `from`) is what
/// `last_match_before` returns.
proof fn lemma_last_match_found(text: Seq<char>, q: Seq<char>, from: int, m: int)
    requires
        0 <= m <= from,
        is_match_at(text, q, m),
        forall|i: int| m < i <= from ==> !is_match_at(text, q, i),
    ensures
        last_match_before(text, q, from) == Some(m),
    decreases from - m,
{
    if m < from {
        lemma_last_match_found(text, q, from - 1, m);
    }
}

/// With no match anywhere at or before `from`, `last_match_before`
/// returns nothing.
proof fn lemma_last_match_none(text: Seq<char>, q: Seq<char>, from: int)
    requires
        forall|i: int| 0 <= i <= from ==> !is_match_at(text, q, i),
    ensures
        last_match_before(text, q, from) is None,
    decreases from + 1,
{
    if from >= 0 {
        lemma_last_match_none(text, q, from - 1);
    }
}

/// A boundary at cluster `k` with none before it (from `j` on) is what
/// `boundary_from` returns.
pub(crate) proof fn lemma_boundary_found(g: Seq<Seq<char>>, m: int, j: int, k: int)
    requires
        0 <= j <= k < g.len(),
        cluster_offset(g, k) == m,
        forall|i: int| j <= i < k ==> cluster_offset(g, i) != m,
    ensures
        boundary_from(g, m, j) == Some(k),
    decreases k - j,
{
    if j < k {
        lemma_boundary_found(g, m, j + 1, k);
    }
}

/// With no cluster starting at offset `m`, `boundary_from` returns
/// nothing.
proof fn lemma_boundary_none(g: Seq<Seq<char>>, m: int, j: int)
    requires
        0 <= j,
        forall|i: int| j <= i < g.len() ==> cluster_offset(g, i) != m,
    ensures
        boundary_from(g, m, j) is None,
    decreases g.len() - j + 1,
{
    if j < g.len() {
        lemma_boundary_none(g, m, j + 1);
    }
}

/// A cluster's starting offset is the length of the text of the clusters
/// before it.
proof fn lemma_cluster_offset_flatten(g: Seq<Seq<char>>, k: int)
    requires
        0 <= k <= g.len(),
    ensures
        cluster_offset(g, k) == g.take(k).flatten().len(),
    decreases k,
{
    if k == 0 {
        assert(g.take(0) =~= Seq::<Seq<char>>::empty());
    } else {
        lemma_cluster_offset_flatten(g, k - 1);
        assert(g.take(k) =~= g.take(k - 1).push(g[k - 1]));
        g.take(k - 1).lemma_flatten_push(g[k - 1]);
    }
}

/// Whether `q` occurs in `flat` at character offset `i`.
fn match_at(flat: &Vec<char>, q: &Vec<char>, i: usize) -> (b: bool)
    requires
        i + q@.len() <= flat@.len(),
    ensures
        b == is_match_at(flat@, q@, i as int),
{
    let n = flat.len();
    let mut j: usize = 0;
    while j < q.len()
        invariant
            j <= q@.len(),
            n == flat@.len(),
            i + q@.len() <= n,
            forall|j2: int| 0 <= j2 < j ==> flat@[i + j2] == q@[j2],
        decreases q@.len() - j,
    {
        if flat[i + j] != q[j] {
            proof {
                assert(flat@.subrange(i as int, i + q@.len()) != q@) by {
                    assert(flat@.subrange(i as int, i + q@.len())[j as int] != q@[j as int]);
                }
            }
            return false;
        }
        j = j + 1;
    }
    proof {
        assert(flat@.subrange(i as int, i + q@.len()) =~= q@);
    }
    true
}

/// The least character offset at which `q` occurs in `flat`, if any.
fn find_first(flat: &Vec<char>, q: &Vec<char>) -> (r: Option<usize>)
    ensures
        opt_as_int(r) == first_match(flat@, q@),
{
    if q.len() > flat.len() {
        proof {
            lemma_first_match_none(flat@, q@, 0);
        }
        return None;
    }
    let bound = flat.len() - q.len();
    let mut i: usize = 0;
    loop
        invariant
            i <= bound,
            bound == flat@.len() - q@.len(),
            forall|i2: int| 0 <= i2 < i ==> !is_match_at(flat@, q@, i2),
        decreases bound - i,
    {
        if match_at(flat, q, i) {
            proof {
                lemma_first_match_found(flat@, q@, 0, i as int);
            }
            return Some(i);
        }
        if i == bound {
            proof {
                assert(forall|i2: int| 0 <= i2 ==> !is_match_at(flat@, q@, i2));
                lemma_first_match_none(flat@, q@, 0);
            }
            return None;
        }
        i = i + 1;
    }
}

/// The greatest character offset at which `q` occurs in `flat`, if any.
fn find_last(flat: &Vec<char>, q: &Vec<char>) -> (r: Option<usize>)
    ensures
        opt_as_int(r) == last_match(flat@, q@),
{
    if q.len() > flat.len() {
        proof {
            lemma_last_match_none(flat@, q@, flat@.len() - q@.len());
        }
        return None;
    }
    let bound = flat.len() - q.len();
    let mut i: usize = bound;
    loop
        invariant
            i <= bound,
            bound == flat@.len() - q@.len(),
            forall|i2: int| i < i2 <= bound ==> !is_match_at(flat@, q@, i2),
        decreases i,
    {
        if match_at(flat, q, i) {
            proof {
                assert(forall|i2: int| i < i2 ==> !is_match_at(flat@, q@, i2));
                lemma_last_match_found(flat@, q@, bound as int, i as int);
            }
            return Some(i);
        }
        if i == 0 {
            proof {
                assert(forall|i2: int| 0 <= i2 <= bound ==> !is_match_at(flat@, q@, i2));
                lemma_last_match_none(flat@, q@, bound as int);
            }
            return None;
        }
        i = i - 1;
    }
}

} // verus!
