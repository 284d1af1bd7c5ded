//! A running game on the tile board: the board, whose turn it is, the move
//! counters and the moves played so far.

use crate::board::{Board, FenError};
use crate::fen::{digits_val, is_digits, space_positions};
use crate::moving::Move;
use vstd::prelude::*;

verus! {

/// A game in progress; player 0 holds the dark stones.
pub struct Game {
    pub board: Board,
    pub current_player: usize,
    pub half_moves: u32,
    pub full_moves: u32,
    pub moves: Vec<Move>,
}

/// Parses a decimal field into a 32-bit counter.
fn parse_dec_u32(s: &str, start: usize, end: usize) -> (r: Option<u32>)
    requires
        start <= end <= s@.len(),
    ensures
        ({
            let field = s@.subrange(start as int, end as int);
            if is_digits(field) && digits_val(field) <= u32::MAX {
                r == Some(digits_val(field) as u32)
            } else {
                r is None
            }
        }),
{
    let ghost field = s@.subrange(start as int, end as int);
    if start == end {
        return None;
    }
    let mut acc: u64 = 0;
    let mut i: usize = start;
    while i < end
        invariant
            start <= i <= end <= s@.len(),
            field == s@.subrange(start as int, end as int),
            start < end,
            is_digits(field.take(i - start)) || i == start,
            acc == digits_val(field.take(i - start)),
            acc <= u32::MAX,
        decreases end - i,
    {
        let c = s.get_char(i);
        proof {
            assert(field[i - start] == s@[i as int]);
        }
        let d = crate::fen::digit_value(c);
        if d > 9 {
            return None;
        }
        proof {
            assert(field.take(i - start + 1).drop_last() =~= field.take(i - start));
            assert(field.take(i - start + 1).last() == field[i - start]);
        }
        acc = acc * 10 + d as u64;
        if acc > u32::MAX as u64 {
            proof {
                crate::fen::lemma_digits_val_grows_pub(field, i - start + 1);
            }
            return None;
        }
        i = i + 1;
    }
    proof {
        assert(field.take(end - start) =~= field);
    }
    Some(acc as u32)
}

impl Game {
    /// Reads a game from a four-field position string: board, turn (`x` is
    /// player 0, anything else player 1), half-move and full-move counters.
    /// A malformed board or counter field is rejected; the error names the
    /// first bad position of the board field, or position 0 for a bad
    /// field layout.
    pub fn from_fen(fen: &str) -> (r: Result<Game, FenError>)
        ensures
            r is Ok ==> r->Ok_0.board.wf(),
            space_positions(fen@).len() != 3 ==> r is Err,
    {
        let n = fen.unicode_len();
        let mut sp: Vec<usize> = Vec::new();
        let mut i: usize = 0;
        while i < n
            invariant
                i <= n,
                n == fen@.len(),
                sp@.map_values(|v: usize| v as int) == crate::fen::spaces_upto(fen@, i as int),
                forall|q: int| 0 <= q < sp@.len() ==> #[trigger] sp@[q] < i,
            decreases n - i,
        {
            if fen.get_char(i) == ' ' {
                sp.push(i);
            }
            proof {
                assert(sp@.map_values(|v: usize| v as int) =~= crate::fen::spaces_upto(
                    fen@,
                    i + 1,
                ));
            }
            i = i + 1;
        }
        if sp.len() != 3 {
            return Err(FenError::InvalidCharacter { fen: fen.to_owned(), pos: 0 });
        }
        let sp0 = sp[0];
        let sp1 = sp[1];
        let sp2 = sp[2];
        proof {
            crate::fen::lemma_spaces_sorted_pub(fen@, n as int);
            assert(space_positions(fen@)[0] == sp0 as int);
            assert(space_positions(fen@)[1] == sp1 as int);
            assert(space_positions(fen@)[2] == sp2 as int);
        }
        let board_str = fen.substring_char(0, sp0);
        let board = match Board::from_fen(board_str) {
            Ok(b) => b,
            Err(e) => {
                return Err(e);
            },
        };
        let current_player: usize;
        if sp1 - sp0 == 2 && fen.get_char(sp0 + 1) == 'x' {
            current_player = 0;
        } else {
            current_player = 1;
        }
        let half_moves = match parse_dec_u32(fen, sp1 + 1, sp2) {
            Some(v) => v,
            None => {
                return Err(FenError::InvalidCharacter { fen: fen.to_owned(), pos: 0 });
            },
        };
        let full_moves = match parse_dec_u32(fen, sp2 + 1, n) {
            Some(v) => v,
            None => {
                return Err(FenError::InvalidCharacter { fen: fen.to_owned(), pos: 0 });
            },
        };
        Ok(Game { board, current_player, half_moves, full_moves, moves: Vec::new() })
    }

    /// Plays a move for the side to move: on success the move is recorded,
    /// the turn passes, the ply clock ticks and the full-move counter ticks
    /// when player 0 comes back to move; a rejected move leaves the record
    /// and counters alone.
    pub fn play_move(&mut self, m: Move) -> (r: Result<(), ()>)
        requires
            old(self).board.wf(),
            m == crate::moving::null_move() || ((m.from.0 as int) < 7 && (m.from.1 as int) < 7 && (
            m.to.0 as int) < 7 && (m.to.1 as int) < 7),
        ensures
            final(self).board.wf(),
            r is Ok <==> old(self).board.play_ok_spec(m),
            r is Ok ==> final(self).moves@ == old(self).moves@.push(m),
            r is Ok ==> final(self).current_player == (old(self).current_player + 1) % 2,
            r is Ok && m != crate::moving::null_move() ==> final(self).board.tiles@ == old(
                self,
            ).board.played_tiles_spec(m, old(self).current_player),
            r is Ok && m == crate::moving::null_move() ==> final(self).board == old(self).board,
            r is Err ==> final(self).moves@ == old(self).moves@ && final(self).current_player
                == old(self).current_player && final(self).half_moves == old(self).half_moves
                && final(self).full_moves == old(self).full_moves,
    {
        let ok = self.board.play_move(m, self.current_player);
        if ok.is_ok() {
            self.moves.push(m);
            let ghost before = self.current_player as int;
            self.current_player = (self.current_player % 2 + 1) % 2;
            proof {
                assert((before % 2 + 1) % 2 == (before + 1) % 2) by (nonlinear_arith)
                    requires
                        before >= 0,
                ;
            }
            if self.half_moves < u32::MAX {
                self.half_moves = self.half_moves + 1;
            }
            if self.current_player == 0 && self.full_moves < u32::MAX {
                self.full_moves = self.full_moves + 1;
            }
            Ok(())
        } else {
            Err(())
        }
    }
}

} // verus!
