use vstd::prelude::*;

pub mod cursor;
pub mod document;
pub mod row;
pub mod search;

verus! {

/// A zero-based location in the buffer: `x` is the column, counted in
/// grapheme clusters, and `y` is the row. A `Position` is not itself
/// range-checked; the operations that consume one clamp or ignore
/// out-of-range coordinates.
#[derive(Clone, Copy, PartialEq, Eq, Structural, Debug)]
pub struct Position {
    pub x: usize,
    pub y: usize,
}

impl Default for Position {
    /// The origin: the top-left corner of the buffer.
    fn default() -> (r: Self)
        ensures
            r.x == 0 && r.y == 0,
    {
        Position { x: 0, y: 0 }
    }
}

/// The scan order of a search: `Forward` looks from the given position
/// towards the end of the buffer, `Backward` from the given position
/// towards its start.
#[derive(Clone, Copy, PartialEq, Eq, Structural, Debug)]
pub enum SearchDirection {
    Forward,
    Backward,
}

} // verus!
