//! Board coordinates and their row-major index mapping.

use vstd::prelude::*;

verus! {

broadcast use vstd::string::to_string_from_display_ensures_for_str;

/// The point at row-major index `i` on a `size`-sided board.
pub open spec fn point_at(i: int, size: nat) -> Point {
    Point { x: (i % (size as int)) as u8, y: (i / (size as int)) as u8 }
}

/// A board coordinate: `x` runs along a row, `y` selects the row. Both axes
/// are bounded to the board size by the callers that validate moves.
#[derive(Copy, Clone, Debug, PartialEq, Eq, Hash, Structural)]
pub struct Point {
    pub x: u8,
    pub y: u8,
}

impl Point {
    /// The row-major cell index of this point on a board of side `size`.
    pub open spec fn index(self, size: nat) -> int {
        self.y * size + self.x
    }

    /// Builds a point from raw values; coordinates above the `u8` range are
    /// rejected as a value error, never a panic.
    pub fn new(x: usize, y: usize) -> (r: Result<Point, String>)
        ensures
            match r {
                Ok(p) => x <= u8::MAX && y <= u8::MAX && p.x == x && p.y == y,
                Err(e) => (x > u8::MAX || y > u8::MAX) && e@ == "coordinate out of range"@,
            },
    {
        if x > u8::MAX as usize || y > u8::MAX as usize {
            return Err("coordinate out of range".to_string());
        }
        Ok(Point { x: x as u8, y: y as u8 })
    }

    /// The row-major index of this point on a board of side `size`.
    pub fn to_index(self, size: usize) -> (r: usize)
        requires
            (self.y as int) * (size as int) + (self.x as int) <= usize::MAX,
        ensures
            r == self.index(size as nat),
    {
        (self.y as usize) * size + (self.x as usize)
    }

    /// The point whose row-major index is `idx` on a board of side `size`.
    pub fn from_index(idx: usize, size: usize) -> (r: Point)
        requires
            1 <= size <= 256,
            idx < size * size,
        ensures
            r.x < size,
            r.y < size,
            r.index(size as nat) == idx,
            r == point_at(idx as int, size as nat),
    {
        let x = idx % size;
        let y = idx / size;
        proof {
            vstd::arithmetic::div_mod::lemma_fundamental_div_mod(idx as int, size as int);
            assert((idx as int) / (size as int) < size as int) by (nonlinear_arith)
                requires
                    1 <= size as int,
                    (idx as int) < (size as int) * (size as int),
            ;
            assert(x < size && y < size && x <= 255 && y <= 255);
            assert((y as int) * (size as int) + (x as int) == idx);
        }
        Point { x: x as u8, y: y as u8 }
    }
}

} // verus!
