//! A stone colour on the tile board.

use vstd::prelude::*;

verus! {

/// The two stone colours; dark plays `x`, light plays `o`.
#[derive(Debug, Copy, Clone, PartialEq, Eq, Structural)]
pub enum Stone {
    Dark,
    Light,
}

/// The colour a player number denotes: even numbers are dark.
pub open spec fn stone_of_player(n: int) -> Stone {
    if n % 2 == 0 {
        Stone::Dark
    } else {
        Stone::Light
    }
}

impl core::ops::Not for Stone {
    type Output = Stone;

    fn not(self) -> (r: Stone) {
        match self {
            Stone::Dark => Stone::Light,
            Stone::Light => Stone::Dark,
        }
    }
}

impl vstd::std_specs::ops::NotSpecImpl for Stone {
    open spec fn obeys_not_spec() -> bool {
        true
    }

    open spec fn not_req(self) -> bool {
        true
    }

    open spec fn not_spec(self) -> Stone {
        match self {
            Stone::Dark => Stone::Light,
            Stone::Light => Stone::Dark,
        }
    }
}

impl Stone {
    /// The colour of a player number.
    pub fn from_player(n: usize) -> (r: Stone)
        ensures
            r == stone_of_player(n as int),
    {
        if n % 2 == 0 {
            Stone::Dark
        } else {
            Stone::Light
        }
    }

    /// The player number of a colour: dark is 0, light is 1.
    pub fn player(&self) -> (r: usize)
        ensures
            stone_of_player(r as int) == *self,
            r <= 1,
    {
        match self {
            Stone::Dark => 0,
            Stone::Light => 1,
        }
    }

    /// The colour a board-field character denotes, if any.
    pub fn from_char(c: char) -> (r: Option<Stone>)
        ensures
            c == 'x' ==> r == Some(Stone::Dark),
            c == 'o' ==> r == Some(Stone::Light),
            c != 'x' && c != 'o' ==> r is None,
    {
        match c {
            'x' => Some(Stone::Dark),
            'o' => Some(Stone::Light),
            _ => None,
        }
    }
}

} // verus!
