//! The rule-violation taxonomy: every way a move can be rejected, as plain
//! values that a caller can surface to a user. None of these is ever fatal.

use vstd::prelude::*;

use crate::color::Color;
use crate::point::Point;

verus! {

/// Why a move was rejected. Board-level checks produce `Occupied`, `Suicide`
/// and `OutOfBounds`; the session wraps them with `WrongPlayer` and `SuperKo`.
#[derive(Copy, Clone, Debug, PartialEq, Eq, Structural)]
pub enum RuleViolation {
    /// The target intersection already holds a stone.
    Occupied { point: Point },
    /// The placement would leave the placing group with zero liberties after
    /// capture resolution.
    Suicide { point: Point },
    /// The resulting position (board plus side to move) occurred before in
    /// this session, and superko enforcement is on.
    SuperKo,
    /// The coordinate lies outside the board on at least one axis.
    OutOfBounds { point: Point },
    /// The move's color does not match the side to move.
    WrongPlayer { expected: Color },
}

impl RuleViolation {
    /// The stable short name of this violation kind.
    pub open spec fn kind_name(self) -> Seq<char> {
        match self {
            RuleViolation::Occupied { .. } => "occupied"@,
            RuleViolation::Suicide { .. } => "suicide"@,
            RuleViolation::SuperKo => "superko"@,
            RuleViolation::OutOfBounds { .. } => "out_of_bounds"@,
            RuleViolation::WrongPlayer { .. } => "wrong_player"@,
        }
    }

    /// The stable short name of this violation kind.
    pub fn as_str(&self) -> (r: &str)
        ensures
            r@ == self.kind_name(),
    {
        match self {
            RuleViolation::Occupied { .. } => "occupied",
            RuleViolation::Suicide { .. } => "suicide",
            RuleViolation::SuperKo => "superko",
            RuleViolation::OutOfBounds { .. } => "out_of_bounds",
            RuleViolation::WrongPlayer { .. } => "wrong_player",
        }
    }
}

} // verus!
