//! Game state: two stone bitboards, a gap mask, the side to move and the
//! move counters, with terminal detection and the winner rule.

use crate::bitboard::{card, comp_spec, reach_spec, BitBoard, FULL};
use vstd::prelude::*;

verus! {

/// One of the two players.  Black plays `x`, White plays `o`.
#[derive(Debug, PartialEq, Eq, Structural, Copy, Clone)]
pub enum Side {
    Black,
    White,
}

/// The opposing side.
pub open spec fn other_side(s: Side) -> Side {
    match s {
        Side::Black => Side::White,
        Side::White => Side::Black,
    }
}

impl core::ops::Not for Side {
    type Output = Side;

    fn not(self) -> (r: Side) {
        match self {
            Side::Black => Side::White,
            Side::White => Side::Black,
        }
    }
}

impl vstd::std_specs::ops::NotSpecImpl for Side {
    open spec fn obeys_not_spec() -> bool {
        true
    }

    open spec fn not_req(self) -> bool {
        true
    }

    open spec fn not_spec(self) -> Side {
        other_side(self)
    }
}

/// How a finished game ended.
#[derive(Debug, PartialEq, Eq, Structural, Copy, Clone)]
pub enum Outcome {
    BlackWin,
    WhiteWin,
    Draw,
}

/// A full game state.  The three bitboards are pairwise disjoint subsets of
/// the 49-square board; `half_moves` counts plies and is capped at 100 by
/// the fifty-move-style rule.
#[derive(Debug, PartialEq, Eq, Structural, Copy, Clone)]
pub struct Position {
    pub black: BitBoard,
    pub white: BitBoard,
    pub gaps: BitBoard,
    pub turn: Side,
    pub half_moves: u8,
    pub full_moves: u8,
}

impl Position {
    /// The structural invariant every legal position satisfies.
    pub open spec fn wf(self) -> bool {
        &&& self.black.0 & !FULL == 0
        &&& self.white.0 & !FULL == 0
        &&& self.gaps.0 & !FULL == 0
        &&& self.black.0 & self.white.0 == 0
        &&& self.black.0 & self.gaps.0 == 0
        &&& self.white.0 & self.gaps.0 == 0
        &&& self.half_moves <= 100
    }

    /// The squares holding no stone and no gap.
    pub open spec fn empty_spec(self) -> u64 {
        comp_spec(self.black.0 | self.white.0 | self.gaps.0)
    }

    /// The bitboard of `side`.
    pub open spec fn colored_spec(self, side: Side) -> u64 {
        match side {
            Side::Black => self.black.0,
            Side::White => self.white.0,
        }
    }

    /// The bitboard of the side to move.
    pub open spec fn mover_spec(self) -> u64 {
        self.colored_spec(self.turn)
    }

    /// The bitboard of the side that is not to move.
    pub open spec fn opponent_spec(self) -> u64 {
        self.colored_spec(other_side(self.turn))
    }

    /// The game has ended: a side is eliminated, the ply clock ran out, or
    /// neither side can reach an empty square.
    pub open spec fn game_over_spec(self) -> bool {
        ||| self.black.0 == 0
        ||| self.white.0 == 0
        ||| self.half_moves >= 100
        ||| reach_spec(self.black.0 | self.white.0) & self.empty_spec() == 0
    }

    /// The winner of a finished game: an eliminated side loses, otherwise
    /// the higher stone count wins and equal counts draw.  Defined (`Some`)
    /// exactly on terminal positions.
    pub open spec fn winner_spec(self) -> Option<Outcome> {
        if !self.game_over_spec() {
            None
        } else if self.black.0 == 0 {
            Some(Outcome::WhiteWin)
        } else if self.white.0 == 0 {
            Some(Outcome::BlackWin)
        } else if card(self.black.0) > card(self.white.0) {
            Some(Outcome::BlackWin)
        } else if card(self.white.0) > card(self.black.0) {
            Some(Outcome::WhiteWin)
        } else {
            Some(Outcome::Draw)
        }
    }

    /// The squares holding no stone and no gap.
    pub fn empty_squares(&self) -> (r: BitBoard)
        ensures
            r.0 == self.empty_spec(),
    {
        core::ops::Not::not(self.black | self.white | self.gaps)
    }

    /// The stones of `side`.
    pub fn colored_squares(&self, side: Side) -> (r: BitBoard)
        ensures
            r.0 == self.colored_spec(side),
    {
        match side {
            Side::Black => self.black,
            Side::White => self.white,
        }
    }

    /// The pair (side's board, other board), to be written back through
    /// `set_colored_squares` after updating.
    pub fn colored_squares_mut(&mut self, side: Side) -> (r: (BitBoard, BitBoard))
        ensures
            *final(self) == *old(self),
            r.0.0 == old(self).colored_spec(side),
            r.1.0 == old(self).colored_spec(other_side(side)),
    {
        match side {
            Side::Black => (self.black, self.white),
            Side::White => (self.white, self.black),
        }
    }

    /// Overwrites the pair read by `colored_squares_mut`: `mine` becomes the
    /// board of `side`, `theirs` the board of the other side.
    pub fn set_colored_squares(&mut self, side: Side, mine: BitBoard, theirs: BitBoard)
        ensures
            final(self).colored_spec(side) == mine.0,
            final(self).colored_spec(other_side(side)) == theirs.0,
            final(self).gaps == old(self).gaps,
            final(self).turn == old(self).turn,
            final(self).half_moves == old(self).half_moves,
            final(self).full_moves == old(self).full_moves,
    {
        match side {
            Side::Black => {
                self.black = mine;
                self.white = theirs;
            },
            Side::White => {
                self.white = mine;
                self.black = theirs;
            },
        }
    }

    /// The starting position as a value.
    pub open spec fn default_spec() -> Position {
        Position {
            black: BitBoard(0x40000000040),
            white: BitBoard(0x1000000000001),
            gaps: BitBoard(0),
            turn: Side::Black,
            half_moves: 0,
            full_moves: 1,
        }
    }

    /// The starting position: Black on a7 and g1, White on a1 and g7.
    pub fn default() -> (r: Position)
        ensures
            r == Position::default_spec(),
            r.black.0 == 0x40000000040,
            r.white.0 == 0x1000000000001,
            r.gaps.0 == 0,
            r.turn == Side::Black,
            r.half_moves == 0,
            r.full_moves == 1,
            r.wf(),
    {
        let p = Position {
            black: BitBoard(0x40000000040),
            white: BitBoard(0x1000000000001),
            gaps: BitBoard(0),
            turn: Side::Black,
            half_moves: 0,
            full_moves: 1,
        };
        proof {
            assert(0x40000000040u64 & !FULL == 0 && 0x1000000000001u64 & !FULL == 0 && 0u64 & !FULL
                == 0 && 0x40000000040u64 & 0x1000000000001u64 == 0 && 0x40000000040u64 & 0u64 == 0
                && 0x1000000000001u64 & 0u64 == 0) by (bit_vector);
        }
        p
    }

    /// Union of both sides' stones.
    pub fn both_sides(&self) -> (r: BitBoard)
        ensures
            r.0 == self.black.0 | self.white.0,
    {
        self.black | self.white
    }

    /// True exactly when the game has ended.
    pub fn game_over(&self) -> (r: bool)
        ensures
            r == self.game_over_spec(),
    {
        self.black.is_empty() || self.white.is_empty() || self.half_moves >= 100 || (
        self.both_sides().reach() & self.empty_squares()).is_empty()
    }

    /// The outcome of a finished game, `None` while the game is running.
    pub fn winner(&self) -> (r: Option<Outcome>)
        ensures
            r == self.winner_spec(),
    {
        if !self.game_over() {
            return None;
        }
        if self.black.is_empty() {
            return Some(Outcome::WhiteWin);
        }
        if self.white.is_empty() {
            return Some(Outcome::BlackWin);
        }
        let black_score = self.black.popcnt();
        let white_score = self.white.popcnt();
        if black_score > white_score {
            Some(Outcome::BlackWin)
        } else if white_score > black_score {
            Some(Outcome::WhiteWin)
        } else {
            Some(Outcome::Draw)
        }
    }
}

} // verus!
