//! Stone color: the two players.

use vstd::prelude::*;

verus! {

/// The color of a stone, and of the player who owns it.
#[derive(Copy, Clone, Debug, PartialEq, Eq, Hash, Structural)]
pub enum Color {
    Black,
    White,
}

impl Color {
    /// The opposing color, as a spec-level value.
    pub open spec fn opp(self) -> Color {
        match self {
            Color::Black => Color::White,
            Color::White => Color::Black,
        }
    }

    /// The index of this color into per-color key tables: black 0, white 1.
    pub open spec fn idx(self) -> int {
        match self {
            Color::Black => 0,
            Color::White => 1,
        }
    }

    /// The opposing color.
    pub fn opponent(self) -> (r: Color)
        ensures
            r == self.opp(),
    {
        match self {
            Color::Black => Color::White,
            Color::White => Color::Black,
        }
    }

    /// The index of this color into per-color tables: black 0, white 1.
    pub fn index(self) -> (r: usize)
        ensures
            r == self.idx(),
            r < 2,
    {
        match self {
            Color::Black => 0,
            Color::White => 1,
        }
    }
}

} // verus!
