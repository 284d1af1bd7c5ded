//! Chebyshev distance on grid coordinates.

use crate::moving::Move;
use vstd::prelude::*;

verus! {

/// The Chebyshev distance of two grid squares: the larger coordinate gap.
pub open spec fn chebyshev(a: (u8, u8), b: (u8, u8)) -> int {
    let dx = if a.0 >= b.0 {
        a.0 - b.0
    } else {
        b.0 - a.0
    };
    let dy = if a.1 >= b.1 {
        a.1 - b.1
    } else {
        b.1 - a.1
    };
    if dx >= dy {
        dx
    } else {
        dy
    }
}

/// Distance to another point of the same kind.
pub trait ChebyshevDistance {
    /// The Chebyshev distance to `other`.
    fn chebyshev_distance(&self, other: (u8, u8)) -> (r: usize)
        ensures
            r == chebyshev(self.as_pair(), other),
    ;

    /// The point itself.
    spec fn as_pair(&self) -> (u8, u8);
}

/// Distance spanned by a value on its own, such as a move.
pub trait ChebyshevDistanceSelf {
    /// The Chebyshev distance the value spans.
    fn chebyshev_distance(&self) -> (r: usize)
        ensures
            r == self.spanned(),
    ;

    /// The distance the value spans.
    spec fn spanned(&self) -> int;
}

impl ChebyshevDistance for (u8, u8) {
    open spec fn as_pair(&self) -> (u8, u8) {
        *self
    }

    fn chebyshev_distance(&self, other: (u8, u8)) -> (r: usize) {
        let dx = if self.0 >= other.0 {
            self.0 - other.0
        } else {
            other.0 - self.0
        };
        let dy = if self.1 >= other.1 {
            self.1 - other.1
        } else {
            other.1 - self.1
        };
        if dx >= dy {
            dx as usize
        } else {
            dy as usize
        }
    }
}

impl ChebyshevDistanceSelf for Move {
    open spec fn spanned(&self) -> int {
        chebyshev(self.from, self.to)
    }

    fn chebyshev_distance(&self) -> (r: usize) {
        self.from.chebyshev_distance(self.to)
    }
}

} // verus!
