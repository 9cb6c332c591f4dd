//! Rectangles in slide coordinates.

use vstd::prelude::*;

verus! {

/// An axis-aligned rectangle in slide units. `x` grows to the right, `y`
/// downwards; `width` and `height` are not negative in a computed layout.
#[derive(Debug, Clone, Copy, PartialEq, Eq, Structural)]
pub struct Rectangle {
    pub x: i64,
    pub y: i64,
    pub width: i64,
    pub height: i64,
}

/// A rectangle over the mathematical integers: what the box model computes
/// before it is known to fit the machine's coordinates.
pub struct Geometry {
    pub x: int,
    pub y: int,
    pub width: int,
    pub height: int,
}

/// `v` can be held as a coordinate.
pub open spec fn in_range(v: int) -> bool {
    i64::MIN <= v <= i64::MAX
}

impl Geometry {
    /// The rectangle's edges, all four, and its size can be held as coordinates.
    pub open spec fn fits(self) -> bool {
        &&& in_range(self.x)
        &&& in_range(self.y)
        &&& in_range(self.width)
        &&& in_range(self.height)
        &&& in_range(self.x + self.width)
        &&& in_range(self.y + self.height)
    }

    /// Where the rectangle starts along the main axis of a row (`x`) or of a
    /// column (`y`).
    pub open spec fn main_start(self, row: bool) -> int {
        if row {
            self.x
        } else {
            self.y
        }
    }

    /// Its size along the main axis of a row (`width`) or of a column (`height`).
    pub open spec fn main_size(self, row: bool) -> int {
        if row {
            self.width
        } else {
            self.height
        }
    }

    /// Where the main axis ends: start plus size.
    pub open spec fn main_end(self, row: bool) -> int {
        self.main_start(row) + self.main_size(row)
    }
}

impl View for Rectangle {
    type V = Geometry;

    open spec fn view(&self) -> Geometry {
        Geometry {
            x: self.x as int,
            y: self.y as int,
            width: self.width as int,
            height: self.height as int,
        }
    }
}

impl Rectangle {
    pub fn new(x: i64, y: i64, width: i64, height: i64) -> (r: Self)
        ensures
            r == (Rectangle { x, y, width, height }),
    {
        Rectangle { x, y, width, height }
    }

    /// The four numbers of the rectangle: `(x, y, width, height)`.
    pub fn xywh(&self) -> (r: (i64, i64, i64, i64))
        ensures
            r == (self.x, self.y, self.width, self.height),
    {
        (self.x, self.y, self.width, self.height)
    }
}

} // verus!
