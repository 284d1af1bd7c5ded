//! A move between grid coordinates, as the tile board and the text
//! protocol use it.

use vstd::prelude::*;

verus! {

/// A move from one grid square to another, each as (column, row).
#[derive(PartialEq, Eq, Debug, Clone, Copy)]
pub struct Move {
    pub from: (u8, u8),
    pub to: (u8, u8),
}

/// The null move sentinel.
pub open spec fn null_move() -> Move {
    Move { from: (255, 255), to: (255, 255) }
}

impl Move {
    /// The null move sentinel.
    pub fn null() -> (r: Move)
        ensures
            r == null_move(),
    {
        Move { from: (255, 255), to: (255, 255) }
    }
}

} // verus!
