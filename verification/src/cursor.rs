use vstd::prelude::*;

use crate::document::Document;
use crate::Position;

verus! {

/// The terminal's text area, in character cells.
#[derive(Clone, Copy, PartialEq, Eq, Structural, Debug)]
pub struct Size {
    pub width: u16,
    pub height: u16,
}

/// A cursor movement command, as the input loop hands it over.
#[derive(Clone, Copy, PartialEq, Eq, Structural, Debug)]
pub enum CursorMove {
    Up,
    Down,
    Left,
    Right,
    PageUp,
    PageDown,
    Home,
    End,
}

/// The length of row `y`, or zero where there is no such row.
pub open spec fn row_len_at(rows: Seq<Seq<Seq<char>>>, y: int) -> int {
    if 0 <= y < rows.len() {
        rows[y].len() as int
    } else {
        0
    }
}

/// `usize` addition that stops at the largest value.
pub open spec fn sat_add(a: int, b: int) -> int {
    if a + b > usize::MAX {
        usize::MAX as int
    } else {
        a + b
    }
}

/// `usize` subtraction that stops at zero.
pub open spec fn sat_sub(a: int, b: int) -> int {
    if a - b < 0 {
        0
    } else {
        a - b
    }
}

/// Where the cursor lands. Up and Down change the row, Down stopping
/// one past the last row; Left at the start of a row wraps to the end
/// of the row before, Right at the end of a row wraps to the start of
/// the row after; PageUp and PageDown move by a whole page of rows,
/// PageDown stopping one past the last row; Home and End jump to the
/// ends of the row. After every move the column is clamped to the
/// length of the row the cursor lands on.
pub open spec fn move_spec(
    rows: Seq<Seq<Seq<char>>>,
    pos: (int, int),
    key: CursorMove,
    page: int,
) -> (int, int) {
    let x = pos.0;
    let y = pos.1;
    let height = rows.len() as int;
    let width = row_len_at(rows, y);
    let moved = match key {
        CursorMove::Up => (x, sat_sub(y, 1)),
        CursorMove::Down => if y < height {
            (x, y + 1)
        } else {
            (x, y)
        },
        CursorMove::Left => if x > 0 {
            (x - 1, y)
        } else if y > 0 {
            (row_len_at(rows, y - 1), y - 1)
        } else {
            (x, y)
        },
        CursorMove::Right => if x < width {
            (x + 1, y)
        } else if y < height {
            (0, y + 1)
        } else {
            (x, y)
        },
        CursorMove::PageUp => (x, sat_sub(y, page)),
        CursorMove::PageDown => if sat_add(y, page) < height {
            (x, y + page)
        } else {
            (x, height)
        },
        CursorMove::Home => (0, y),
        CursorMove::End => (width, y),
    };
    let w = row_len_at(rows, moved.1);
    (if moved.0 > w {
        w
    } else {
        moved.0
    }, moved.1)
}

/// Moves the cursor one step for `key` over the document, `page` being
/// the height of the viewport in rows. The result never lies below the
/// last row boundary nor past the end of the row it lands on.
pub fn move_cursor(pos: &Position, key: CursorMove, doc: &Document, page: usize) -> (r: Position)
    requires
        pos.y <= doc@.len(),
    ensures
        (r.x as int, r.y as int) == move_spec(doc@, (pos.x as int, pos.y as int), key, page as int),
        r.y <= doc@.len(),
        r.x <= row_len_at(doc@, r.y as int),
{
    let mut x = pos.x;
    let mut y = pos.y;
    let height = doc.len();
    let width = match doc.row(y) {
        Some(row) => row.len(),
        None => 0,
    };
    match key {
        CursorMove::Up => {
            y = y.saturating_sub(1);
        },
        CursorMove::Down => {
            if y < height {
                y = y + 1;
            }
        },
        CursorMove::Left => {
            if x > 0 {
                x = x - 1;
            } else if y > 0 {
                y = y - 1;
                x = match doc.row(y) {
                    Some(row) => row.len(),
                    None => 0,
                };
            }
        },
        CursorMove::Right => {
            if x < width {
                x = x + 1;
            } else if y < height {
                y = y + 1;
                x = 0;
            }
        },
        CursorMove::PageUp => {
            y = y.saturating_sub(page);
        },
        CursorMove::PageDown => {
            y = if y.saturating_add(page) < height {
                y + page
            } else {
                height
            };
        },
        CursorMove::Home => {
            x = 0;
        },
        CursorMove::End => {
            x = width;
        },
    }
    let new_width = match doc.row(y) {
        Some(row) => row.len(),
        None => 0,
    };
    if x > new_width {
        x = new_width;
    }
    Position { x, y }
}

/// The offset for one axis: an offset already covering the cursor
/// stays, one too far down pulls back exactly to the cursor, and one
/// too far up advances by the least amount that brings the cursor
/// back inside the `extent` cells of the viewport.
pub open spec fn scroll_axis(pos: int, off: int, extent: int) -> int {
    if pos < off {
        pos
    } else if pos >= sat_add(off, extent) {
        sat_add(sat_sub(pos, extent), 1)
    } else {
        off
    }
}

/// The scroll offset after the cursor moved: each axis follows
/// `scroll_axis`, so a viewport of at least one cell in each direction
/// always shows the cursor.
pub fn scroll_offset(cursor: &Position, offset: &Position, width: usize, height: usize) -> (r:
    Position)
    ensures
        r.x as int == scroll_axis(cursor.x as int, offset.x as int, width as int),
        r.y as int == scroll_axis(cursor.y as int, offset.y as int, height as int),
        width >= 1 ==> r.x <= cursor.x < r.x + width,
        height >= 1 ==> r.y <= cursor.y < r.y + height,
{
    let x = if cursor.x < offset.x {
        cursor.x
    } else if cursor.x >= offset.x.saturating_add(width) {
        cursor.x.saturating_sub(width).saturating_add(1)
    } else {
        offset.x
    };
    let y = if cursor.y < offset.y {
        cursor.y
    } else if cursor.y >= offset.y.saturating_add(height) {
        cursor.y.saturating_sub(height).saturating_add(1)
    } else {
        offset.y
    };
    Position { x, y }
}

} // verus!
