//! An index-ordered variant of the position text: the board field fills
//! squares 0..48 in order, so the bottom rank comes first, and the union of
//! the stone boards is kept alongside them.

use crate::bitboard::{comp_spec, BitBoard};
use crate::fen::{
    board_of_upto, digits_val, emit_ranks_from, is_digits, parse_cells_rem, space_positions,
    Cell, FenError,
};
use crate::position::Side;
use vstd::prelude::*;

verus! {

/// A position in the index-ordered model, with the occupied union cached.
#[derive(Debug, PartialEq, Eq, Structural, Copy, Clone)]
pub struct Position {
    pub occupied: BitBoard,
    pub black: BitBoard,
    pub white: BitBoard,
    pub gaps: BitBoard,
    pub turn: Side,
    pub half_moves: u8,
    pub full_moves: u8,
}

/// The cell-to-square map of the index-ordered board field.
pub open spec fn flat_sq_fn() -> spec_fn(int) -> int {
    |k: int| k
}

/// The index-ordered parse of a whole position string.
pub open spec fn parse_flat_spec(s: Seq<char>) -> Result<Position, FenError> {
    let sp = space_positions(s);
    if sp.len() != 3 {
        Err(FenError::Illegal)
    } else {
        let board_str = s.subrange(0, sp[0]);
        let turn_str = s.subrange(sp[0] + 1, sp[1]);
        let half_str = s.subrange(sp[1] + 1, sp[2]);
        let full_str = s.subrange(sp[2] + 1, s.len() as int);
        match parse_cells_rem(board_str, Seq::empty(), 0, 0) {
            Option::None => Err(FenError::Illegal),
            Option::Some(cells) => {
                if !(turn_str =~= seq!['x'] || turn_str =~= seq!['o']) {
                    Err(FenError::Turn)
                } else if !(is_digits(half_str) && digits_val(half_str) <= 100) {
                    Err(FenError::HalfMoves)
                } else if !(is_digits(full_str) && digits_val(full_str) <= 255) {
                    Err(FenError::FullMoves)
                } else {
                    let black = board_of_upto(cells, Cell::Black, flat_sq_fn(), 49);
                    let white = board_of_upto(cells, Cell::White, flat_sq_fn(), 49);
                    let gaps = board_of_upto(cells, Cell::Gap, flat_sq_fn(), 49);
                    Ok(
                        Position {
                            occupied: BitBoard(black | white),
                            black: BitBoard(black),
                            white: BitBoard(white),
                            gaps: BitBoard(gaps),
                            turn: if turn_str =~= seq!['x'] {
                                Side::Black
                            } else {
                                Side::White
                            },
                            half_moves: digits_val(half_str) as u8,
                            full_moves: digits_val(full_str) as u8,
                        },
                    )
                }
            },
        }
    }
}

/// The cell a position shows on a square, index order.
pub open spec fn flat_cell_at(p: Position, sq: int) -> Cell {
    if crate::bitboard::bit(p.black.0, sq as u8) {
        Cell::Black
    } else if crate::bitboard::bit(p.white.0, sq as u8) {
        Cell::White
    } else if crate::bitboard::bit(p.gaps.0, sq as u8) {
        Cell::Gap
    } else {
        Cell::Empty
    }
}

/// The 49 cells of a position in index order.
pub open spec fn flat_cells_of(p: Position) -> Seq<Cell> {
    Seq::new(49, |k: int| flat_cell_at(p, k))
}

/// The canonical index-ordered text of a position.
pub open spec fn emit_flat_spec(p: Position) -> Seq<char> {
    emit_ranks_from(flat_cells_of(p), 0) + seq![' '] + seq![
        if p.turn == Side::Black {
            'x'
        } else {
            'o'
        },
    ] + seq![' '] + crate::fen::dec_str(p.half_moves as int) + seq![' '] + crate::fen::dec_str(
        p.full_moves as int,
    )
}

impl Position {
    /// Parses an index-ordered position string: the same four fields and
    /// named errors as the standard form, squares filled in index order.
    pub fn from_fen(fen: &str) -> (r: Result<Position, FenError>)
        ensures
            r == parse_flat_spec(fen@),
    {
        let n = fen.unicode_len();
        let mut sp: Vec<usize> = Vec::new();
        let mut i: usize = 0;
        while i < n
            invariant
                i <= n,
                n == fen@.len(),
                sp@.map_values(|x: usize| x as int) == crate::fen::spaces_upto(fen@, i as int),
                forall|q: int| 0 <= q < sp@.len() ==> #[trigger] sp@[q] < i,
            decreases n - i,
        {
            if fen.get_char(i) == ' ' {
                sp.push(i);
            }
            proof {
                assert(sp@.map_values(|x: usize| x as int) =~= crate::fen::spaces_upto(
                    fen@,
                    i + 1,
                ));
            }
            i = i + 1;
        }
        if sp.len() != 3 {
            return Err(FenError::Illegal);
        }
        let sp0 = sp[0];
        let sp1 = sp[1];
        let sp2 = sp[2];
        proof {
            crate::fen::lemma_spaces_sorted_pub(fen@, n as int);
            assert(space_positions(fen@)[0] == sp0 as int);
            assert(space_positions(fen@)[1] == sp1 as int);
            assert(space_positions(fen@)[2] == sp2 as int);
        }
        let cells = match crate::fen::parse_board_cells(fen, sp0) {
            Some(c) => c,
            None => {
                return Err(FenError::Illegal);
            },
        };

        let ghost turn_str = fen@.subrange(sp0 as int + 1, sp1 as int);
        let turn: Side;
        if sp1 - sp0 == 2 {
            let tc = fen.get_char(sp0 + 1);
            proof {
                assert(turn_str[0] == fen@[sp0 as int + 1]);
            }
            if tc == 'x' {
                turn = Side::Black;
                proof {
                    assert(turn_str =~= seq!['x']);
                }
            } else if tc == 'o' {
                turn = Side::White;
                proof {
                    assert(turn_str =~= seq!['o']);
                    assert(!(turn_str =~= seq!['x']));
                }
            } else {
                proof {
                    assert(!(turn_str =~= seq!['x']) && !(turn_str =~= seq!['o']));
                }
                return Err(FenError::Turn);
            }
        } else {
            proof {
                assert(turn_str.len() != 1);
                assert(!(turn_str =~= seq!['x']) && !(turn_str =~= seq!['o']));
            }
            return Err(FenError::Turn);
        }

        let half_moves = match crate::fen::parse_dec(fen, sp1 + 1, sp2, 100) {
            Some(v) => v,
            None => {
                return Err(FenError::HalfMoves);
            },
        };
        let full_moves = match crate::fen::parse_dec(fen, sp2 + 1, n, 255) {
            Some(v) => v,
            None => {
                return Err(FenError::FullMoves);
            },
        };

        let mut black: u64 = 0;
        let mut white: u64 = 0;
        let mut gaps: u64 = 0;
        let ghost sq_of = flat_sq_fn();
        let mut k2: usize = 0;
        while k2 < 49
            invariant
                k2 <= 49,
                cells@.len() == 49,
                black == board_of_upto(cells@, Cell::Black, sq_of, k2 as int),
                white == board_of_upto(cells@, Cell::White, sq_of, k2 as int),
                gaps == board_of_upto(cells@, Cell::Gap, sq_of, k2 as int),
                sq_of == flat_sq_fn(),
            decreases 49 - k2,
        {
            proof {
                crate::bitboard::lemma_zero_identities(black);
                crate::bitboard::lemma_zero_identities(white);
                crate::bitboard::lemma_zero_identities(gaps);
            }
            let b = 1u64 << (k2 as u64);
            match cells[k2] {
                Cell::Black => {
                    black = black | b;
                },
                Cell::White => {
                    white = white | b;
                },
                Cell::Gap => {
                    gaps = gaps | b;
                },
                Cell::Empty => {},
            }
            k2 = k2 + 1;
        }
        Ok(
            Position {
                occupied: BitBoard(black | white),
                black: BitBoard(black),
                white: BitBoard(white),
                gaps: BitBoard(gaps),
                turn,
                half_moves,
                full_moves,
            },
        )
    }

    /// Writes the index-ordered text: bottom rank first, empty runs as
    /// digits, then turn and the two counters.
    pub fn get_fen(&self) -> (r: String)
        ensures
            r@ == emit_flat_spec(*self),
    {
        let ghost cells = flat_cells_of(*self);
        let mut out: Vec<char> = Vec::new();
        let mut rk: usize = 0;
        while rk < 7
            invariant
                rk <= 7,
                cells == flat_cells_of(*self),
                out@ + emit_ranks_from(cells, rk as int) == emit_ranks_from(cells, 0),
            decreases 7 - rk,
        {
            let ghost rank = cells.subrange(7 * rk as int, 7 * rk as int + 7);
            let ghost target = out@ + emit_ranks_from(cells, rk as int);
            proof {
                assert(emit_ranks_from(cells, rk as int) == crate::fen::emit_rank_at(rank, 0, 0)
                    + (if rk < 6 {
                    seq!['/']
                } else {
                    Seq::<char>::empty()
                }) + emit_ranks_from(cells, rk as int + 1));
            }
            let mut run: u8 = 0;
            let mut j: usize = 0;
            while j < 7
                invariant
                    j <= 7,
                    run <= j,
                    rk < 7,
                    cells == flat_cells_of(*self),
                    rank == cells.subrange(7 * rk as int, 7 * rk as int + 7),
                    out@ + crate::fen::emit_rank_at(rank, j as int, run as int) + (
                    if rk < 6 {
                        seq!['/']
                    } else {
                        Seq::<char>::empty()
                    }) + emit_ranks_from(cells, rk as int + 1) == target,
                decreases 7 - j,
            {
                let sq = rk * 7 + j;
                proof {
                    assert((7 * rk as int + j as int) / 7 == rk as int && (7 * rk as int
                        + j as int) % 7 == j as int) by (nonlinear_arith)
                        requires
                            0 <= j < 7,
                            0 <= rk < 7,
                    ;
                    assert(rank[j as int] == cells[7 * rk as int + j as int]);
                    assert(rank[j as int] == flat_cell_at(*self, sq as int));
                    crate::fen::lemma_bit_test(self.black.0, sq as u64);
                    crate::fen::lemma_bit_test(self.white.0, sq as u64);
                    crate::fen::lemma_bit_test(self.gaps.0, sq as u64);
                }
                let b = 1u64 << (sq as u64);
                if self.black.0 & b != 0 {
                    if run > 0 {
                        out.push(crate::fen::digit_char(run));
                    }
                    out.push('x');
                    run = 0;
                } else if self.white.0 & b != 0 {
                    if run > 0 {
                        out.push(crate::fen::digit_char(run));
                    }
                    out.push('o');
                    run = 0;
                } else if self.gaps.0 & b != 0 {
                    if run > 0 {
                        out.push(crate::fen::digit_char(run));
                    }
                    out.push('-');
                    run = 0;
                } else {
                    run = run + 1;
                }
                proof {
                    assert(out@ + crate::fen::emit_rank_at(rank, j as int + 1, run as int) + (
                    if rk < 6 {
                        seq!['/']
                    } else {
                        Seq::<char>::empty()
                    }) + emit_ranks_from(cells, rk as int + 1) =~= target);
                }
                j = j + 1;
            }
            if run > 0 {
                out.push(crate::fen::digit_char(run));
            }
            if rk < 6 {
                out.push('/');
            }
            proof {
                assert(out@ + emit_ranks_from(cells, rk as int + 1) =~= target);
            }
            rk = rk + 1;
        }
        out.push(' ');
        match self.turn {
            Side::Black => out.push('x'),
            Side::White => out.push('o'),
        }
        out.push(' ');
        crate::fen::push_dec(&mut out, self.half_moves);
        out.push(' ');
        crate::fen::push_dec(&mut out, self.full_moves);
        proof {
            assert(emit_ranks_from(cells, 7) =~= Seq::<char>::empty());
            assert(out@ =~= emit_flat_spec(*self));
        }
        crate::fen::string_from_chars(&out)
    }

    /// The squares holding no stone and no gap.
    pub fn empty(&self) -> (r: BitBoard)
        ensures
            r.0 == comp_spec(self.black.0 | self.white.0 | self.gaps.0),
    {
        core::ops::Not::not(self.black | self.white | self.gaps)
    }
}

} // verus!
