//! Signed 2D coordinates for logical screen cells.
//!
//! A `Position` names a cell by column and row. Arithmetic is componentwise,
//! ordering is row-major, and conversion to the terminal's unsigned
//! coordinate pair floors negative components to zero.

use vstd::prelude::*;

verus! {

/// The terminal's native unsigned coordinate pair: `(column, row)`.
pub type Visible = (u16, u16);

/// A logical screen cell, addressed by signed column and row.
///
/// Row is declared first so that the derived ordering is row-major:
/// rows are compared first, then columns.
#[derive(Clone, Copy, Debug, PartialEq, Eq, Structural, Hash, PartialOrd, Ord, Default)]
pub struct Position {
    pub row: i32,
    pub col: i32,
}

/// A single component clamped into `[lo, hi]` (meaningful only when `lo <= hi`).
pub open spec fn clamped(v: int, lo: int, hi: int) -> int {
    if v < lo {
        lo
    } else if v > hi {
        hi
    } else {
        v
    }
}

/// A single component mapped to the unsigned domain: negatives floor to zero.
pub open spec fn visible_component(v: int) -> int {
    if v < 0 {
        0
    } else {
        v
    }
}

/// Componentwise sum, as a value of `Position` (meaningful only when the
/// sums fit in the component type).
pub open spec fn add_spec(a: Position, b: Position) -> Position {
    Position { row: (a.row + b.row) as i32, col: (a.col + b.col) as i32 }
}

/// Componentwise difference, as a value of `Position` (meaningful only when
/// the differences fit in the component type).
pub open spec fn sub_spec(a: Position, b: Position) -> Position {
    Position { row: (a.row - b.row) as i32, col: (a.col - b.col) as i32 }
}

impl Position {
    pub fn new(col: i32, row: i32) -> (r: Position)
        ensures
            r.col == col,
            r.row == row,
    {
        Position { row, col }
    }

    /// Componentwise addition.
    pub fn add(self, other: Position) -> (r: Position)
        requires
            i32::MIN <= self.col + other.col <= i32::MAX,
            i32::MIN <= self.row + other.row <= i32::MAX,
        ensures
            r.col == self.col + other.col,
            r.row == self.row + other.row,
            r == add_spec(self, other),
    {
        Position { row: self.row + other.row, col: self.col + other.col }
    }

    /// Componentwise subtraction.
    pub fn sub(self, other: Position) -> (r: Position)
        requires
            i32::MIN <= self.col - other.col <= i32::MAX,
            i32::MIN <= self.row - other.row <= i32::MAX,
        ensures
            r.col == self.col - other.col,
            r.row == self.row - other.row,
            r == sub_spec(self, other),
    {
        Position { row: self.row - other.row, col: self.col - other.col }
    }

    /// The point clamped into the rectangle `[min, max]`, componentwise.
    pub open spec fn clamp_spec(self, min: Position, max: Position) -> Position {
        Position {
            row: clamped(self.row as int, min.row as int, max.row as int) as i32,
            col: clamped(self.col as int, min.col as int, max.col as int) as i32,
        }
    }

    /// Componentwise clamp into `[min, max]`; the bounds must be ordered.
    pub fn clamp(&self, min: Position, max: Position) -> (r: Position)
        requires
            min.col <= max.col,
            min.row <= max.row,
        ensures
            r == self.clamp_spec(min, max),
    {
        let col: i32 = if self.col < min.col {
            min.col
        } else if self.col > max.col {
            max.col
        } else {
            self.col
        };
        let row: i32 = if self.row < min.row {
            min.row
        } else if self.row > max.row {
            max.row
        } else {
            self.row
        };
        Position { row, col }
    }

    /// Lossy conversion to the unsigned domain: negative components floor
    /// to zero. Components above `u16::MAX` are not representable and are
    /// excluded by the precondition.
    pub fn to_visible(self) -> (r: Visible)
        requires
            self.col <= u16::MAX as i32,
            self.row <= u16::MAX as i32,
        ensures
            r.0 == visible_component(self.col as int),
            r.1 == visible_component(self.row as int),
    {
        (floorcast(self.col), floorcast(self.row))
    }

    /// Conversion from the unsigned domain; always exact.
    pub fn from_visible(t: Visible) -> (r: Position)
        ensures
            r.col == t.0,
            r.row == t.1,
    {
        Position { row: t.1 as i32, col: t.0 as i32 }
    }
}

/// A component floored to zero if negative, unchanged otherwise.
pub fn floorcast(signed: i32) -> (r: u16)
    requires
        signed <= u16::MAX as i32,
    ensures
        r == visible_component(signed as int),
{
    if signed < 0 {
        0
    } else {
        signed as u16
    }
}

/// Adding a difference back restores the original point: for all `a`, `b`
/// whose componentwise difference is representable,
/// `add(sub(a, b), b) == a`.
pub proof fn lemma_add_sub_inverse(a: Position, b: Position)
    requires
        i32::MIN <= a.col - b.col <= i32::MAX,
        i32::MIN <= a.row - b.row <= i32::MAX,
    ensures
        add_spec(sub_spec(a, b), b) == a,
{
}

/// Clamping lands inside the bounds, and is the identity on points that
/// already lie inside them.
pub proof fn lemma_clamp_bounds(p: Position, min: Position, max: Position)
    requires
        min.col <= max.col,
        min.row <= max.row,
    ensures
        min.col <= p.clamp_spec(min, max).col <= max.col,
        min.row <= p.clamp_spec(min, max).row <= max.row,
        min.col <= p.col <= max.col && min.row <= p.row <= max.row ==> p.clamp_spec(min, max)
            == p,
{
}

} // verus!
