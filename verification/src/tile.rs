//! One square of the tile board: its grid place, its stone, and whether it
//! is blocked.

use crate::stone::Stone;
use vstd::prelude::*;

verus! {

/// A board square for the tile-grid model.
#[derive(Debug, Copy, Clone, PartialEq, Eq)]
pub struct Tile {
    pub pos: (usize, usize),
    pub stone: Option<Stone>,
    pub blocked: bool,
}

impl Tile {
    /// The stone on the tile, if any.
    pub open spec fn stone_spec(self) -> Option<Stone> {
        self.stone
    }

    /// True when the tile can never hold a stone.
    pub open spec fn blocked_spec(self) -> bool {
        self.blocked
    }

    /// The tile's grid coordinates.
    pub open spec fn pos_spec(self) -> (usize, usize) {
        self.pos
    }

    /// A fresh tile at the given place, as a value.
    pub open spec fn new_spec(pos: (usize, usize)) -> Tile {
        Tile { pos, stone: None, blocked: false }
    }

    /// The tile with a stone put on it.
    pub open spec fn with_stone(self, stone: Stone) -> Tile {
        Tile { stone: Some(stone), ..self }
    }

    /// The tile with its stone lifted off.
    pub open spec fn with_stone_taken(self) -> Tile {
        Tile { stone: None, ..self }
    }

    /// The tile blocked.
    pub open spec fn with_blocked(self) -> Tile {
        Tile { blocked: true, ..self }
    }

    /// An open, unblocked tile at the given grid place.
    pub fn new(pos: (usize, usize)) -> (r: Tile)
        ensures
            r == Tile::new_spec(pos),
            r.pos_spec() == pos,
            r.stone_spec() is None,
            !r.blocked_spec(),
    {
        Tile { pos, stone: None, blocked: false }
    }

    /// Reads the stone.
    pub fn get_stone(&self) -> (r: Option<Stone>)
        ensures
            r == self.stone_spec(),
    {
        self.stone
    }

    /// Takes the stone off the tile and returns it.
    pub fn pop_stone(&mut self) -> (r: Option<Stone>)
        ensures
            r == old(self).stone_spec(),
            *final(self) == old(self).with_stone_taken(),
    {
        let r = self.stone;
        self.stone = None;
        r
    }

    /// Puts a stone on the tile.
    pub fn set_stone(&mut self, stone: Stone)
        ensures
            *final(self) == old(self).with_stone(stone),
    {
        self.stone = Some(stone);
    }

    /// True when the tile is blocked.
    pub fn is_blocked(&self) -> (r: bool)
        ensures
            r == self.blocked_spec(),
    {
        self.blocked
    }

    /// Blocks or unblocks the tile.
    pub fn set_blocked(&mut self, blocked: bool)
        ensures
            final(self).blocked_spec() == blocked,
            final(self).pos_spec() == old(self).pos_spec(),
            final(self).stone_spec() == old(self).stone_spec(),
            blocked ==> *final(self) == old(self).with_blocked(),
    {
        self.blocked = blocked;
    }

    /// The tile's grid coordinates.
    pub fn get_grid_pos(&self) -> (r: (usize, usize))
        ensures
            r == self.pos_spec(),
    {
        self.pos
    }
}

} // verus!
