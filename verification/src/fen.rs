//! FEN input and output for positions.
//!
//! A position string has four space-separated fields: board, turn, half-move
//! clock, full-move counter.  The board field lists the seven ranks top
//! first, separated by `/`; each rank spells its seven squares left to right
//! with `x` (Black), `o` (White), `-` (gap) and the digits `1`..`7` for runs
//! of empty squares.

use crate::bitboard::{bit, lemma_comm, lemma_or_in_board, lemma_zero_bit, lemma_zero_identities, BitBoard, FULL};
use crate::position::{Position, Side};
use vstd::prelude::*;

verus! {

/// Why a FEN string was rejected.
#[derive(Debug, PartialEq, Eq, Structural, Copy, Clone)]
pub enum FenError {
    /// Wrong field count or a malformed board field.
    Illegal,
    /// The turn field is neither `x` nor `o`.
    Turn,
    /// The half-move field is not an integer in 0..=100.
    HalfMoves,
    /// The full-move field is not an integer in 0..=255.
    FullMoves,
}

/// What one board square holds.
#[derive(Debug, PartialEq, Eq, Structural, Copy, Clone)]
pub enum Cell {
    Empty,
    Black,
    White,
    Gap,
}

/// The board-field character of a non-empty cell.
pub open spec fn char_of_cell(c: Cell) -> char {
    match c {
        Cell::Black => 'x',
        Cell::White => 'o',
        Cell::Gap => '-',
        Cell::Empty => '1',
    }
}

/// The numeric value of a digit character, or -1.
pub open spec fn digit_of(c: char) -> int {
    match c {
        '0' => 0,
        '1' => 1,
        '2' => 2,
        '3' => 3,
        '4' => 4,
        '5' => 5,
        '6' => 6,
        '7' => 7,
        '8' => 8,
        '9' => 9,
        _ => -1,
    }
}

/// The digit character of a value in 0..=9.
pub open spec fn char_of_digit(d: int) -> char {
    if d == 0 {
        '0'
    } else if d == 1 {
        '1'
    } else if d == 2 {
        '2'
    } else if d == 3 {
        '3'
    } else if d == 4 {
        '4'
    } else if d == 5 {
        '5'
    } else if d == 6 {
        '6'
    } else if d == 7 {
        '7'
    } else if d == 8 {
        '8'
    } else {
        '9'
    }
}

/// A run of empty cells.
pub open spec fn empties(n: nat) -> Seq<Cell> {
    Seq::new(n, |i: int| Cell::Empty)
}

/// Board-field parser over the remaining characters.  `acc` holds the cells
/// read so far, `rank_len` the squares of the current rank, `ranks` the
/// completed ranks.  The grammar is strict: seven ranks of exactly seven
/// squares, separated by `/`, with digit runs `1`..`7`.
pub open spec fn parse_cells_rem(s: Seq<char>, acc: Seq<Cell>, rank_len: int, ranks: int) -> Option<
    Seq<Cell>,
>
    decreases s.len(),
{
    if s.len() == 0 {
        if ranks == 6 && rank_len == 7 {
            Some(acc)
        } else {
            None
        }
    } else {
        let c = s[0];
        if c == 'x' || c == 'o' || c == '-' {
            if rank_len < 7 {
                let cell = if c == 'x' {
                    Cell::Black
                } else if c == 'o' {
                    Cell::White
                } else {
                    Cell::Gap
                };
                parse_cells_rem(s.drop_first(), acc + seq![cell], rank_len + 1, ranks)
            } else {
                None
            }
        } else if c == '/' {
            if rank_len == 7 && ranks < 6 {
                parse_cells_rem(s.drop_first(), acc, 0, ranks + 1)
            } else {
                None
            }
        } else if 1 <= digit_of(c) <= 7 {
            if rank_len + digit_of(c) <= 7 {
                parse_cells_rem(
                    s.drop_first(),
                    acc + empties(digit_of(c) as nat),
                    rank_len + digit_of(c),
                    ranks,
                )
            } else {
                None
            }
        } else {
            None
        }
    }
}

/// The positions of the space characters among the first `k` characters.
pub open spec fn spaces_upto(s: Seq<char>, k: int) -> Seq<int>
    decreases k,
{
    if k <= 0 {
        Seq::empty()
    } else if s[k - 1] == ' ' {
        spaces_upto(s, k - 1) + seq![k - 1]
    } else {
        spaces_upto(s, k - 1)
    }
}

/// The positions of all space characters.
pub open spec fn space_positions(s: Seq<char>) -> Seq<int> {
    spaces_upto(s, s.len() as int)
}

/// All characters are decimal digits and there is at least one.
pub open spec fn is_digits(s: Seq<char>) -> bool {
    s.len() > 0 && forall|i: int| 0 <= i < s.len() ==> digit_of(#[trigger] s[i]) >= 0
}

/// The value of a digit string, most significant digit first.
pub open spec fn digits_val(s: Seq<char>) -> int
    decreases s.len(),
{
    if s.len() == 0 {
        0
    } else {
        digits_val(s.drop_last()) * 10 + digit_of(s.last())
    }
}

/// The decimal spelling of a nonnegative number.
pub open spec fn dec_str(n: int) -> Seq<char>
    decreases n,
{
    if n < 10 {
        seq![char_of_digit(n)]
    } else {
        dec_str(n / 10) + seq![char_of_digit(n % 10)]
    }
}

/// The square a board-field cell index denotes: cells run top rank first,
/// left to right, while square indices run bottom rank first.
pub open spec fn rank_square(k: int) -> int {
    (6 - k / 7) * 7 + k % 7
}

/// The cell-to-square map of the standard board field, as one value.
pub open spec fn rank_sq_fn() -> spec_fn(int) -> int {
    |k: int| rank_square(k)
}

/// The board holding the squares of all cells of the given kind, squares
/// assigned by `sq_of`.
pub open spec fn board_of_upto(
    cells: Seq<Cell>,
    which: Cell,
    sq_of: spec_fn(int) -> int,
    k: int,
) -> u64
    decreases k,
{
    if k <= 0 {
        0
    } else {
        board_of_upto(cells, which, sq_of, k - 1) | (if cells[k - 1] == which {
            1u64 << (sq_of(k - 1) as u64)
        } else {
            0
        })
    }
}

/// The position a parsed FEN describes, given its 49 cells and tail fields.
pub open spec fn position_of_cells(
    cells: Seq<Cell>,
    sq_of: spec_fn(int) -> int,
    turn: Side,
    half_moves: u8,
    full_moves: u8,
) -> Position {
    Position {
        black: BitBoard(board_of_upto(cells, Cell::Black, sq_of, 49)),
        white: BitBoard(board_of_upto(cells, Cell::White, sq_of, 49)),
        gaps: BitBoard(board_of_upto(cells, Cell::Gap, sq_of, 49)),
        turn,
        half_moves,
        full_moves,
    }
}

/// The whole-string FEN parser: four space-separated fields, parsed in
/// order with one named error each.
pub open spec fn parse_fen_spec(s: Seq<char>) -> Result<Position, FenError> {
    let sp = space_positions(s);
    if sp.len() != 3 {
        Err(FenError::Illegal)
    } else {
        let board_str = s.subrange(0, sp[0]);
        let turn_str = s.subrange(sp[0] + 1, sp[1]);
        let half_str = s.subrange(sp[1] + 1, sp[2]);
        let full_str = s.subrange(sp[2] + 1, s.len() as int);
        match parse_cells_rem(board_str, Seq::empty(), 0, 0) {
            Option::None => Err(FenError::Illegal),
            Option::Some(cells) => {
                if !(turn_str =~= seq!['x'] || turn_str =~= seq!['o']) {
                    Err(FenError::Turn)
                } else if !(is_digits(half_str) && digits_val(half_str) <= 100) {
                    Err(FenError::HalfMoves)
                } else if !(is_digits(full_str) && digits_val(full_str) <= 255) {
                    Err(FenError::FullMoves)
                } else {
                    let turn = if turn_str =~= seq!['x'] {
                        Side::Black
                    } else {
                        Side::White
                    };
                    Ok(
                        position_of_cells(
                            cells,
                            rank_sq_fn(),
                            turn,
                            digits_val(half_str) as u8,
                            digits_val(full_str) as u8,
                        ),
                    )
                }
            },
        }
    }
}

/// The cell a position shows on a square.
pub open spec fn cell_at(p: Position, sq: int) -> Cell {
    if bit(p.black.0, sq as u8) {
        Cell::Black
    } else if bit(p.white.0, sq as u8) {
        Cell::White
    } else if bit(p.gaps.0, sq as u8) {
        Cell::Gap
    } else {
        Cell::Empty
    }
}

/// The 49 cells of a position in board-field order (top rank first).
pub open spec fn cells_of(p: Position) -> Seq<Cell> {
    Seq::new(49, |k: int| cell_at(p, rank_square(k)))
}

/// Emits the tail of one rank, `j` squares already handled and `run`
/// pending empties not yet flushed as a digit.
pub open spec fn emit_rank_at(rank: Seq<Cell>, j: int, run: int) -> Seq<char>
    decreases 7 - j,
{
    if j >= 7 {
        if run == 0 {
            Seq::empty()
        } else {
            seq![char_of_digit(run)]
        }
    } else if rank[j] == Cell::Empty {
        emit_rank_at(rank, j + 1, run + 1)
    } else {
        (if run == 0 {
            Seq::empty()
        } else {
            seq![char_of_digit(run)]
        }) + seq![char_of_cell(rank[j])] + emit_rank_at(rank, j + 1, 0)
    }
}

/// Emits the board field from rank `r` on, ranks separated by `/`.
pub open spec fn emit_ranks_from(cells: Seq<Cell>, r: int) -> Seq<char>
    decreases 7 - r,
{
    if r >= 7 {
        Seq::empty()
    } else {
        emit_rank_at(cells.subrange(7 * r, 7 * r + 7), 0, 0) + (if r < 6 {
            seq!['/']
        } else {
            Seq::empty()
        }) + emit_ranks_from(cells, r + 1)
    }
}

/// The canonical FEN of a position.
pub open spec fn emit_fen_spec(p: Position) -> Seq<char> {
    emit_ranks_from(cells_of(p), 0) + seq![' '] + seq![
        if p.turn == Side::Black {
            'x'
        } else {
            'o'
        },
    ] + seq![' '] + dec_str(p.half_moves as int) + seq![' '] + dec_str(p.full_moves as int)
}

/// Relies on `Iterator::collect` for `String`: the collected string holds
/// exactly the characters of the vector, in order.
#[verifier::external_body]
pub(crate) fn string_from_chars(v: &Vec<char>) -> (r: String)
    ensures
        r@ == v@,
{
    v.iter().collect()
}

/// The numeric value of a digit character, or 255 for any other character.
pub(crate) fn digit_value(c: char) -> (r: u8)
    ensures
        digit_of(c) >= 0 ==> r == digit_of(c),
        digit_of(c) < 0 ==> r == 255,
{
    match c {
        '0' => 0,
        '1' => 1,
        '2' => 2,
        '3' => 3,
        '4' => 4,
        '5' => 5,
        '6' => 6,
        '7' => 7,
        '8' => 8,
        '9' => 9,
        _ => 255,
    }
}

/// The digit character of a value in 0..=9.
pub(crate) fn digit_char(d: u8) -> (r: char)
    requires
        d <= 9,
    ensures
        r == char_of_digit(d as int),
{
    match d {
        0 => '0',
        1 => '1',
        2 => '2',
        3 => '3',
        4 => '4',
        5 => '5',
        6 => '6',
        7 => '7',
        8 => '8',
        _ => '9',
    }
}

/// Appends the decimal spelling of `n`.
pub(crate) fn push_dec(out: &mut Vec<char>, n: u8)
    ensures
        final(out)@ == old(out)@ + dec_str(n as int),
{
    if n >= 100 {
        proof {
            assert(dec_str(n as int) == dec_str(n as int / 10) + seq![char_of_digit(n as int % 10)]);
            assert(dec_str(n as int / 10) == dec_str(n as int / 10 / 10) + seq![
                char_of_digit(n as int / 10 % 10),
            ]);
            assert(n as int / 10 / 10 == n as int / 100);
            assert(n as int / 100 < 10);
        }
        out.push(digit_char(n / 100));
        out.push(digit_char((n / 10) % 10));
        out.push(digit_char(n % 10));
        proof {
            assert(out@ =~= old(out)@ + dec_str(n as int));
        }
    } else if n >= 10 {
        proof {
            assert(dec_str(n as int) == dec_str(n as int / 10) + seq![char_of_digit(n as int % 10)]);
            assert(n as int / 10 < 10);
        }
        out.push(digit_char(n / 10));
        out.push(digit_char(n % 10));
        proof {
            assert(out@ =~= old(out)@ + dec_str(n as int));
        }
    } else {
        out.push(digit_char(n));
        proof {
            assert(out@ =~= old(out)@ + dec_str(n as int));
        }
    }
}

/// Parses a decimal field of `s` between `start` and `end`, accepting
/// values up to `limit`.
pub(crate) fn parse_dec(s: &str, start: usize, end: usize, limit: u8) -> (r: Option<u8>)
    requires
        start <= end <= s@.len(),
    ensures
        ({
            let field = s@.subrange(start as int, end as int);
            if is_digits(field) && digits_val(field) <= limit {
                r == Some(digits_val(field) as u8) && digits_val(field) >= 0
            } else {
                r is None
            }
        }),
{
    let ghost field = s@.subrange(start as int, end as int);
    if start == end {
        return None;
    }
    let mut acc: u32 = 0;
    let mut i: usize = start;
    while i < end
        invariant
            start <= i <= end <= s@.len(),
            field == s@.subrange(start as int, end as int),
            start < end,
            is_digits(field.take(i - start)) || i == start,
            acc == digits_val(field.take(i - start)),
            acc <= limit,
        decreases end - i,
    {
        let c = s.get_char(i);
        proof {
            assert(field[i - start] == s@[i as int]);
        }
        let d = digit_value(c);
        if d > 9 {
            proof {
                lemma_digits_has_bad(field, i - start);
            }
            return None;
        }
        proof {
            assert(field.take(i - start + 1).drop_last() =~= field.take(i - start));
            assert(field.take(i - start + 1).last() == field[i - start]);
        }
        acc = acc * 10 + d as u32;
        if acc > limit as u32 {
            proof {
                lemma_digits_val_grows_pub(field, i - start + 1);
            }
            return None;
        }
        i = i + 1;
    }
    proof {
        assert(field.take(end - start) =~= field);
    }
    Some(acc as u8)
}

/// The union of the single-bit boards of the first `k` cell squares.
pub open spec fn squares_mask(sq_of: spec_fn(int) -> int, k: int) -> u64
    decreases k,
{
    if k <= 0 {
        0
    } else {
        squares_mask(sq_of, k - 1) | (1u64 << (sq_of(k - 1) as u64))
    }
}

/// Cell indices below 49 denote distinct board squares.
proof fn lemma_rank_square_facts(j: int, k: int)
    requires
        0 <= j < 49,
        0 <= k < 49,
    ensures
        0 <= rank_square(k) < 49,
        j != k ==> rank_square(j) != rank_square(k),
{
    assert(0 <= k / 7 <= 6 && 0 <= k % 7 <= 6);
    assert(0 <= j / 7 <= 6 && 0 <= j % 7 <= 6);
    assert(k == 7 * (k / 7) + k % 7);
    assert(j == 7 * (j / 7) + j % 7);
}

/// Distinct squares give disjoint single-bit boards, and board squares stay
/// inside the mask.
proof fn lemma_one_bit_facts(a: u64, b: u64)
    by (bit_vector)
    requires
        a < 64,
        b < 64,
    ensures
        a != b ==> (1u64 << a) & (1u64 << b) == 0,
        a < 49 ==> (1u64 << a) & !FULL == 0,
{
}

/// Growing one board by a fresh bit keeps the three boards disjoint and
/// inside the grown mask.
proof fn lemma_fold_step(x: u64, y: u64, z: u64, mask: u64, t: u64)
    by (bit_vector)
    requires
        x & !mask == 0,
        y & !mask == 0,
        z & !mask == 0,
        x & y == 0,
        x & z == 0,
        y & z == 0,
        mask & (1u64 << t) == 0,
    ensures
        (x | (1u64 << t)) & y == 0,
        y & (x | (1u64 << t)) == 0,
        (x | (1u64 << t)) & z == 0,
        z & (x | (1u64 << t)) == 0,
        (x | (1u64 << t)) & !(mask | (1u64 << t)) == 0,
        x & !(mask | (1u64 << t)) == 0,
        y & !(mask | (1u64 << t)) == 0,
        z & !(mask | (1u64 << t)) == 0,
        x | 0 == x,
{
}

/// The squares of the first `k` cells are fresh for any later cell, and the
/// mask stays on the board.
proof fn lemma_mask_fresh(k: int, m: int)
    requires
        0 <= k <= m < 49,
    ensures
        squares_mask(rank_sq_fn(), k) & (1u64 << (rank_square(m) as u64)) == 0,
        squares_mask(rank_sq_fn(), k) & !FULL == 0,
    decreases k,
{
    let sq_of = rank_sq_fn();
    lemma_rank_square_facts(m, m);
    if k == 0 {
        lemma_zero_identities(1u64 << (rank_square(m) as u64));
        lemma_zero_identities(!FULL);
    } else {
        lemma_mask_fresh(k - 1, m);
        lemma_rank_square_facts(k - 1, m);
        lemma_one_bit_facts(rank_square(k - 1) as u64, rank_square(m) as u64);
        let prev = squares_mask(sq_of, k - 1);
        let bitp = 1u64 << (rank_square(k - 1) as u64);
        let bitm = 1u64 << (rank_square(m) as u64);
        crate::bitboard::lemma_or_and_zero(prev, bitp, bitm);
        lemma_or_in_board(prev, bitp);
    }
}

/// The boards folded from any 49 cells are pairwise disjoint subsets of the
/// board, so a parsed position is well formed.
pub proof fn lemma_folded_boards_wf(cells: Seq<Cell>, k: int)
    requires
        0 <= k <= 49,
    ensures
        ({
            let sq_of = rank_sq_fn();
            let b = board_of_upto(cells, Cell::Black, sq_of, k);
            let w = board_of_upto(cells, Cell::White, sq_of, k);
            let g = board_of_upto(cells, Cell::Gap, sq_of, k);
            b & !FULL == 0 && w & !FULL == 0 && g & !FULL == 0 && b & w == 0 && b & g == 0 && w & g
                == 0 && b & !squares_mask(sq_of, k) == 0 && w & !squares_mask(sq_of, k) == 0 && g
                & !squares_mask(sq_of, k) == 0
        }),
    decreases k,
{
    let sq_of = rank_sq_fn();
    if k == 0 {
        lemma_zero_identities(!FULL);
        lemma_zero_identities(0);
        lemma_zero_identities(!0u64);
    } else {
        lemma_folded_boards_wf(cells, k - 1);
        lemma_mask_fresh(k - 1, k - 1);
        lemma_rank_square_facts(k - 1, k - 1);
        let b = board_of_upto(cells, Cell::Black, sq_of, k - 1);
        let w = board_of_upto(cells, Cell::White, sq_of, k - 1);
        let g = board_of_upto(cells, Cell::Gap, sq_of, k - 1);
        let mask = squares_mask(sq_of, k - 1);
        let t = rank_square(k - 1) as u64;
        lemma_one_bit_facts(t, t);
        lemma_comm(b, w);
        lemma_comm(b, g);
        lemma_comm(w, g);
        lemma_zero_identities(b);
        lemma_zero_identities(w);
        lemma_zero_identities(g);
        lemma_fold_step(b, w, g, mask, t);
        lemma_fold_step(w, b, g, mask, t);
        lemma_fold_step(g, b, w, mask, t);
        lemma_or_in_board(b, 1u64 << t);
        lemma_or_in_board(w, 1u64 << t);
        lemma_or_in_board(g, 1u64 << t);
    }
}

/// Parses the board field (the first `sp0` characters) into its 49 cells,
/// or nothing when the field breaks the strict grammar.
pub(crate) fn parse_board_cells(fen: &str, sp0: usize) -> (r: Option<Vec<Cell>>)
    requires
        sp0 <= fen@.len(),
    ensures
        ({
            let field = fen@.subrange(0, sp0 as int);
            match parse_cells_rem(field, Seq::empty(), 0, 0) {
                Option::Some(cells) => r is Some && r->0@ == cells && cells.len() == 49,
                Option::None => r is None,
            }
        }),
{
    let ghost field = fen@.subrange(0, sp0 as int);
    proof {
        assert(field.skip(0) =~= field);
    }
    let mut cells: Vec<Cell> = Vec::new();
    let mut rank_len: u8 = 0;
    let mut ranks: u8 = 0;
    let mut k: usize = 0;
    while k < sp0
        invariant
            k <= sp0,
            sp0 <= fen@.len(),
            field == fen@.subrange(0, sp0 as int),
            rank_len <= 7,
            ranks <= 6,
            cells@.len() == 7 * ranks + rank_len,
            parse_cells_rem(field.skip(k as int), cells@, rank_len as int, ranks as int)
                == parse_cells_rem(field, Seq::<Cell>::empty(), 0, 0),
        decreases sp0 - k,
    {
        proof {
            assert(field.skip(k as int)[0] == fen@[k as int]);
            assert(field.skip(k as int).drop_first() =~= field.skip(k as int + 1));
        }
        let ghost prev_cells = cells@;
        let c = fen.get_char(k);
        if c == 'x' || c == 'o' || c == '-' {
            if rank_len >= 7 {
                return None;
            }
            let cell = if c == 'x' {
                Cell::Black
            } else if c == 'o' {
                Cell::White
            } else {
                Cell::Gap
            };
            cells.push(cell);
            proof {
                assert(cells@ =~= prev_cells + seq![cell]);
            }
            rank_len = rank_len + 1;
        } else if c == '/' {
            if !(rank_len == 7 && ranks < 6) {
                return None;
            }
            rank_len = 0;
            ranks = ranks + 1;
        } else {
            let d = digit_value(c);
            if d < 1 || d > 7 {
                return None;
            }
            if rank_len + d > 7 {
                return None;
            }
            let ghost base = cells@;
            let mut j: u8 = 0;
            while j < d
                invariant
                    j <= d,
                    cells@ == base + Seq::new(j as nat, |q: int| Cell::Empty),
                decreases d - j,
            {
                cells.push(Cell::Empty);
                proof {
                    assert(cells@ =~= base + Seq::new(j as nat + 1, |q: int| Cell::Empty));
                }
                j = j + 1;
            }
            proof {
                assert(cells@ =~= prev_cells + empties(digit_of(fen@[k as int]) as nat));
            }
            rank_len = rank_len + d;
        }
        k = k + 1;
    }
    proof {
        assert(field.skip(sp0 as int) =~= Seq::<char>::empty());
    }
    if !(ranks == 6 && rank_len == 7) {
        return None;
    }
    Some(cells)
}

impl Position {
    /// Parses a FEN string; the four fields are checked in order and each
    /// failure names its field.  A parsed position is well formed.
    pub fn from_fen(fen: &str) -> (r: Result<Position, FenError>)
        ensures
            r == parse_fen_spec(fen@),
            r is Ok ==> r->Ok_0.wf(),
    {
        let n = fen.unicode_len();
        let mut sp: Vec<usize> = Vec::new();
        let mut i: usize = 0;
        while i < n
            invariant
                i <= n,
                n == fen@.len(),
                sp@.map_values(|x: usize| x as int) == spaces_upto(fen@, i as int),
                forall|q: int| 0 <= q < sp@.len() ==> #[trigger] sp@[q] < i,
            decreases n - i,
        {
            if fen.get_char(i) == ' ' {
                sp.push(i);
                proof {
                    assert(sp@.map_values(|x: usize| x as int) =~= spaces_upto(
                        fen@,
                        i + 1,
                    ));
                }
            } else {
                proof {
                    assert(sp@.map_values(|x: usize| x as int) =~= spaces_upto(
                        fen@,
                        i + 1,
                    ));
                }
            }
            i = i + 1;
        }
        if sp.len() != 3 {
            return Err(FenError::Illegal);
        }
        let sp0 = sp[0];
        let sp1 = sp[1];
        let sp2 = sp[2];
        proof {
            lemma_spaces_sorted_pub(fen@, n as int);
            assert(space_positions(fen@)[0] == sp0 as int);
            assert(space_positions(fen@)[1] == sp1 as int);
            assert(space_positions(fen@)[2] == sp2 as int);
        }

        // Board field.
        proof {
            assert(space_positions(fen@) =~= seq![sp0 as int, sp1 as int, sp2 as int]);
        }
        let cells = match parse_board_cells(fen, sp0) {
            Some(c) => c,
            None => {
                return Err(FenError::Illegal);
            },
        };

        // Turn field.
        let ghost turn_str = fen@.subrange(sp0 as int + 1, sp1 as int);
        let turn: Side;
        if sp1 - sp0 == 2 {
            let tc = fen.get_char(sp0 + 1);
            proof {
                assert(turn_str[0] == fen@[sp0 as int + 1]);
            }
            if tc == 'x' {
                turn = Side::Black;
                proof {
                    assert(turn_str =~= seq!['x']);
                }
            } else if tc == 'o' {
                turn = Side::White;
                proof {
                    assert(turn_str =~= seq!['o']);
                    assert(!(turn_str =~= seq!['x']));
                }
            } else {
                proof {
                    assert(!(turn_str =~= seq!['x']) && !(turn_str =~= seq!['o']));
                }
                return Err(FenError::Turn);
            }
        } else {
            proof {
                assert(turn_str.len() != 1);
                assert(!(turn_str =~= seq!['x']) && !(turn_str =~= seq!['o']));
            }
            return Err(FenError::Turn);
        }

        // Half-move and full-move fields.
        let half_moves = match parse_dec(fen, sp1 + 1, sp2, 100) {
            Some(v) => v,
            None => {
                return Err(FenError::HalfMoves);
            },
        };
        let full_moves = match parse_dec(fen, sp2 + 1, n, 255) {
            Some(v) => v,
            None => {
                return Err(FenError::FullMoves);
            },
        };

        // Fold the cells into the three boards.
        let mut black: u64 = 0;
        let mut white: u64 = 0;
        let mut gaps: u64 = 0;
        let ghost sq_of = rank_sq_fn();
        let mut k2: usize = 0;
        while k2 < 49
            invariant
                k2 <= 49,
                cells@.len() == 49,
                black == board_of_upto(cells@, Cell::Black, sq_of, k2 as int),
                white == board_of_upto(cells@, Cell::White, sq_of, k2 as int),
                gaps == board_of_upto(cells@, Cell::Gap, sq_of, k2 as int),
                sq_of == rank_sq_fn(),
            decreases 49 - k2,
        {
            let y = 6 - k2 / 7;
            let sq = y * 7 + k2 % 7;
            proof {
                lemma_rank_square_facts(k2 as int, k2 as int);
                assert(sq == rank_square(k2 as int));
                lemma_zero_identities(black);
                lemma_zero_identities(white);
                lemma_zero_identities(gaps);
            }
            let b = 1u64 << (sq as u64);
            match cells[k2] {
                Cell::Black => {
                    black = black | b;
                },
                Cell::White => {
                    white = white | b;
                },
                Cell::Gap => {
                    gaps = gaps | b;
                },
                Cell::Empty => {},
            }
            k2 = k2 + 1;
        }
        proof {
            lemma_folded_boards_wf(cells@, 49);
        }
        Ok(
            Position {
                black: BitBoard(black),
                white: BitBoard(white),
                gaps: BitBoard(gaps),
                turn,
                half_moves,
                full_moves,
            },
        )
    }
}

/// A set bit is seen by the `& != 0` test.
pub proof fn lemma_bit_test(x: u64, t: u64)
    by (bit_vector)
    requires
        t < 64,
    ensures
        (x & (1u64 << t) != 0) <==> (x >> t) & 1 == 1,
{
}

impl Position {
    /// Writes the canonical FEN of this position: seven ranks top first with
    /// coalesced empty runs, then turn, half-move clock and full-move
    /// counter.
    pub fn get_fen(&self) -> (r: String)
        ensures
            r@ == emit_fen_spec(*self),
    {
        let ghost cells = cells_of(*self);
        let mut out: Vec<char> = Vec::new();
        let mut rk: usize = 0;
        while rk < 7
            invariant
                rk <= 7,
                cells == cells_of(*self),
                out@ + emit_ranks_from(cells, rk as int) == emit_ranks_from(cells, 0),
            decreases 7 - rk,
        {
            let ghost rank = cells.subrange(7 * rk as int, 7 * rk as int + 7);
            let ghost target = out@ + emit_ranks_from(cells, rk as int);
            proof {
                assert(emit_ranks_from(cells, rk as int) == emit_rank_at(rank, 0, 0) + (
                if rk < 6 {
                    seq!['/']
                } else {
                    Seq::<char>::empty()
                }) + emit_ranks_from(cells, rk as int + 1));
            }
            let mut run: u8 = 0;
            let mut j: usize = 0;
            while j < 7
                invariant
                    j <= 7,
                    run <= j,
                    rk < 7,
                    cells == cells_of(*self),
                    rank == cells.subrange(7 * rk as int, 7 * rk as int + 7),
                    out@ + emit_rank_at(rank, j as int, run as int) + (
                    if rk < 6 {
                        seq!['/']
                    } else {
                        Seq::<char>::empty()
                    }) + emit_ranks_from(cells, rk as int + 1) == target,
                decreases 7 - j,
            {
                let sq = (6 - rk) * 7 + j;
                proof {
                    lemma_rank_square_facts(7 * rk as int + j as int, 0);
                    assert((7 * rk as int + j as int) / 7 == rk as int && (7 * rk as int
                        + j as int) % 7 == j as int) by (nonlinear_arith)
                        requires
                            0 <= j < 7,
                            0 <= rk < 7,
                    ;
                    assert(rank[j as int] == cells[7 * rk as int + j as int]);
                    assert(rank[j as int] == cell_at(*self, sq as int));
                    lemma_bit_test(self.black.0, sq as u64);
                    lemma_bit_test(self.white.0, sq as u64);
                    lemma_bit_test(self.gaps.0, sq as u64);
                }
                let b = 1u64 << (sq as u64);
                if self.black.0 & b != 0 {
                    if run > 0 {
                        out.push(digit_char(run));
                    }
                    out.push('x');
                    run = 0;
                } else if self.white.0 & b != 0 {
                    if run > 0 {
                        out.push(digit_char(run));
                    }
                    out.push('o');
                    run = 0;
                } else if self.gaps.0 & b != 0 {
                    if run > 0 {
                        out.push(digit_char(run));
                    }
                    out.push('-');
                    run = 0;
                } else {
                    run = run + 1;
                }
                proof {
                    assert(out@ + emit_rank_at(rank, j as int + 1, run as int) + (
                    if rk < 6 {
                        seq!['/']
                    } else {
                        Seq::<char>::empty()
                    }) + emit_ranks_from(cells, rk as int + 1) =~= target);
                }
                j = j + 1;
            }
            if run > 0 {
                out.push(digit_char(run));
            }
            if rk < 6 {
                out.push('/');
            }
            proof {
                assert(out@ + emit_ranks_from(cells, rk as int + 1) =~= target);
            }
            rk = rk + 1;
        }
        out.push(' ');
        match self.turn {
            Side::Black => out.push('x'),
            Side::White => out.push('o'),
        }
        out.push(' ');
        push_dec(&mut out, self.half_moves);
        out.push(' ');
        push_dec(&mut out, self.full_moves);
        proof {
            assert(emit_ranks_from(cells, 7) =~= Seq::<char>::empty());
            assert(out@ =~= emit_fen_spec(*self));
        }
        string_from_chars(&out)
    }
}

/// Space positions are ascending and in range.
pub proof fn lemma_spaces_sorted_pub(s: Seq<char>, k: int)
    requires
        k <= s.len(),
    ensures
        forall|i: int|
            0 <= i < spaces_upto(s, k).len() ==> 0 <= #[trigger] spaces_upto(s, k)[i] < k,
        forall|i: int, j: int|
            0 <= i < j < spaces_upto(s, k).len() ==> spaces_upto(s, k)[i] < spaces_upto(s, k)[j],
    decreases k,
{
    if k > 0 {
        lemma_spaces_sorted_pub(s, k - 1);
        let prev = spaces_upto(s, k - 1);
        let cur = spaces_upto(s, k);
        if s[k - 1] == ' ' {
            assert forall|i: int| 0 <= i < cur.len() implies 0 <= #[trigger] cur[i] < k by {
                if i < prev.len() {
                    assert(cur[i] == prev[i]);
                } else {
                    assert(cur[i] == k - 1);
                }
            }
            assert forall|i: int, j: int| 0 <= i < j < cur.len() implies cur[i] < cur[j] by {
                if j < prev.len() {
                    assert(cur[i] == prev[i] && cur[j] == prev[j]);
                } else {
                    assert(cur[j] == k - 1);
                    assert(cur[i] == prev[i] && prev[i] < k - 1);
                }
            }
        }
    }
}

/// A non-digit anywhere spoils a digit field.
proof fn lemma_digits_has_bad(s: Seq<char>, k: int)
    requires
        0 <= k < s.len(),
        digit_of(s[k]) < 0,
    ensures
        !is_digits(s),
{
}

/// Digit prefixes never shrink in value, so a prefix over the limit damns
/// the whole field.
pub proof fn lemma_digits_val_grows_pub(s: Seq<char>, k: int)
    requires
        0 <= k <= s.len(),
        digits_val(s.take(k)) >= 0,
    ensures
        is_digits(s) ==> digits_val(s) >= digits_val(s.take(k)),
    decreases s.len() - k,
{
    if k < s.len() {
        if is_digits(s) {
            assert(s.take(k + 1).drop_last() =~= s.take(k));
            assert(s.take(k + 1).last() == s[k]);
            assert(digits_val(s.take(k + 1)) == digits_val(s.take(k)) * 10 + digit_of(s[k]));
            lemma_digits_val_grows_pub(s, k + 1);
            assert(s.take(s.len() as int) =~= s);
        }
    } else {
        assert(s.take(s.len() as int) =~= s);
    }
}

} // verus!

verus! {

/// Two words with the same bits are the same word.
proof fn lemma_u64_pointwise(x: u64, y: u64)
    requires
        forall|t: u8| bit(x, t) == bit(y, t),
    ensures
        x == y,
    decreases x, y,
{
    if x == 0 && y == 0 {
    } else if x == 0 {
        vstd::std_specs::bits::axiom_u64_trailing_zeros(y);
        let tz = vstd::std_specs::bits::u64_trailing_zeros(y);
        assert(bit(y, tz as u8));
        lemma_zero_bit(tz as u8);
    } else if y == 0 {
        vstd::std_specs::bits::axiom_u64_trailing_zeros(x);
        let tz = vstd::std_specs::bits::u64_trailing_zeros(x);
        assert(bit(x, tz as u8));
        lemma_zero_bit(tz as u8);
    } else {
        assert forall|t: u8| #[trigger] bit(x / 2, t) == bit(y / 2, t) by {
            lemma_half_bit(x, t);
            lemma_half_bit(y, t);
            if t < 63 {
                assert(bit(x, (t + 1) as u8) == bit(y, (t + 1) as u8));
            }
        }
        lemma_u64_pointwise(x / 2, y / 2);
        assert(bit(x, 0) == bit(y, 0));
        assert((x % 2 == 1 <==> bit(x, 0)) && (y % 2 == 1 <==> bit(y, 0))) by (bit_vector);
        assert(x == 2 * (x / 2) + x % 2);
        assert(y == 2 * (y / 2) + y % 2);
    }
}

/// The bits of the half of a word.
proof fn lemma_half_bit(x: u64, t: u8)
    by (bit_vector)
    ensures
        t < 63 ==> (bit(x / 2, t) == bit(x, (t + 1) as u8)),
        t >= 63 ==> !bit(x / 2, t),
{
}

/// The board-field and decimal emitters never write a space.
proof fn lemma_no_space_rank(rank: Seq<Cell>, j: int, run: int)
    requires
        0 <= j <= 7,
    ensures
        forall|i: int|
            0 <= i < emit_rank_at(rank, j, run).len() ==> #[trigger] emit_rank_at(rank, j, run)[i]
                != ' ',
    decreases 7 - j,
{
    if j >= 7 {
        assert forall|i: int| 0 <= i < emit_rank_at(rank, j, run).len() implies #[trigger] emit_rank_at(
            rank,
            j,
            run,
        )[i] != ' ' by {
            assert(emit_rank_at(rank, j, run)[i] == char_of_digit(run));
        }
    } else if rank[j] == Cell::Empty {
        lemma_no_space_rank(rank, j + 1, run + 1);
        assert(emit_rank_at(rank, j, run) == emit_rank_at(rank, j + 1, run + 1));
    } else {
        lemma_no_space_rank(rank, j + 1, 0);
        let flush = if run == 0 {
            Seq::<char>::empty()
        } else {
            seq![char_of_digit(run)]
        };
        let tail = emit_rank_at(rank, j + 1, 0);
        assert(emit_rank_at(rank, j, run) == flush + seq![char_of_cell(rank[j])] + tail);
        assert forall|i: int| 0 <= i < emit_rank_at(rank, j, run).len() implies #[trigger] emit_rank_at(
            rank,
            j,
            run,
        )[i] != ' ' by {
            let e = emit_rank_at(rank, j, run);
            if i < flush.len() {
                assert(e[i] == char_of_digit(run));
            } else if i == flush.len() {
                assert(e[i] == char_of_cell(rank[j]));
            } else {
                assert(e[i] == tail[i - flush.len() - 1]);
            }
        }
    }
}

/// No rank separator or rank text is a space.
proof fn lemma_no_space_ranks(cells: Seq<Cell>, r: int)
    requires
        0 <= r <= 7,
        cells.len() == 49,
    ensures
        forall|i: int|
            0 <= i < emit_ranks_from(cells, r).len() ==> #[trigger] emit_ranks_from(cells, r)[i]
                != ' ',
    decreases 7 - r,
{
    if r < 7 {
        lemma_no_space_ranks(cells, r + 1);
        let rank = cells.subrange(7 * r, 7 * r + 7);
        lemma_no_space_rank(rank, 0, 0);
        let head = emit_rank_at(rank, 0, 0);
        let sep = if r < 6 {
            seq!['/']
        } else {
            Seq::<char>::empty()
        };
        let tail = emit_ranks_from(cells, r + 1);
        assert(emit_ranks_from(cells, r) == head + sep + tail);
        assert forall|i: int| 0 <= i < emit_ranks_from(cells, r).len() implies #[trigger] emit_ranks_from(
            cells,
            r,
        )[i] != ' ' by {
            let e = emit_ranks_from(cells, r);
            if i < head.len() {
                assert(e[i] == head[i]);
            } else if i < head.len() + sep.len() {
                assert(e[i] == '/');
            } else {
                assert(e[i] == tail[i - head.len() - sep.len()]);
            }
        }
    }
}

/// Decimal spellings consist of digits, and digits round-trip.
proof fn lemma_dec_rt(n: int)
    requires
        0 <= n,
    ensures
        is_digits(dec_str(n)),
        digits_val(dec_str(n)) == n,
        forall|i: int| 0 <= i < dec_str(n).len() ==> #[trigger] dec_str(n)[i] != ' ',
    decreases n,
{
    if n < 10 {
        let s = dec_str(n);
        assert(s == seq![char_of_digit(n)]);
        assert(s.drop_last() =~= Seq::<char>::empty());
        assert(digits_val(Seq::<char>::empty()) == 0);
        assert(s.last() == char_of_digit(n));
        assert(digits_val(s) == digits_val(s.drop_last()) * 10 + digit_of(s.last()));
        assert(digit_of(char_of_digit(n)) == n);
    } else {
        lemma_dec_rt(n / 10);
        let s = dec_str(n);
        assert(s == dec_str(n / 10) + seq![char_of_digit(n % 10)]);
        assert(s.drop_last() =~= dec_str(n / 10));
        assert(s.last() == char_of_digit(n % 10));
        assert(digits_val(s) == digits_val(dec_str(n / 10)) * 10 + digit_of(char_of_digit(n % 10)));
        assert(digit_of(char_of_digit(n % 10)) == n % 10);
        assert((n / 10) * 10 + n % 10 == n);
    }
}

/// Skipping characters that are not spaces does not add space positions.
proof fn lemma_spaces_skip(s: Seq<char>, k0: int, k: int)
    requires
        0 <= k0 <= k <= s.len(),
        forall|i: int| k0 <= i < k ==> s[i] != ' ',
    ensures
        spaces_upto(s, k) == spaces_upto(s, k0),
    decreases k - k0,
{
    if k > k0 {
        lemma_spaces_skip(s, k0, k - 1);
    }
}

/// Parsing the emission of one rank consumes it into the accumulator; the
/// `run` pending empties must really be empty cells.
proof fn lemma_rank_rt(rank: Seq<Cell>, j: int, run: int, rest: Seq<char>, acc: Seq<Cell>, ranks: int)
    requires
        rank.len() == 7,
        0 <= run <= j <= 7,
        forall|i: int| j - run <= i < j ==> rank[i] == Cell::Empty,
    ensures
        parse_cells_rem(emit_rank_at(rank, j, run) + rest, acc, j - run, ranks)
            == parse_cells_rem(rest, acc + rank.skip(j - run), 7, ranks),
    decreases 7 - j,
{
    if j == 7 {
        if run == 0 {
            assert(emit_rank_at(rank, j, run) + rest =~= rest);
            assert(acc + rank.skip(7) =~= acc);
        } else {
            let s = emit_rank_at(rank, j, run) + rest;
            assert(s[0] == char_of_digit(run));
            assert(digit_of(char_of_digit(run)) == run);
            assert(s.drop_first() =~= rest);
            assert(acc + empties(run as nat) =~= acc + rank.skip(7 - run));
            assert(parse_cells_rem(s, acc, 7 - run, ranks) == parse_cells_rem(
                rest,
                acc + empties(run as nat),
                7,
                ranks,
            ));
        }
    } else if rank[j] == Cell::Empty {
        lemma_rank_rt(rank, j + 1, run + 1, rest, acc, ranks);
        assert(emit_rank_at(rank, j, run) == emit_rank_at(rank, j + 1, run + 1));
        assert(forall|i: int| j - run <= i < j + 1 ==> rank[i] == Cell::Empty);
    } else {
        let c = char_of_cell(rank[j]);
        let cell = rank[j];
        assert(c == 'x' || c == 'o' || c == '-');
        assert(c == 'x' ==> cell == Cell::Black);
        assert(c == 'o' ==> cell == Cell::White);
        assert(c == '-' ==> cell == Cell::Gap);
        let tail = emit_rank_at(rank, j + 1, 0);
        let acc2 = acc + rank.subrange(j - run, j + 1);
        lemma_rank_rt(rank, j + 1, 0, rest, acc2, ranks);
        assert(acc2 + rank.skip(j + 1) =~= acc + rank.skip(j - run));
        if run == 0 {
            let s = emit_rank_at(rank, j, run) + rest;
            assert(emit_rank_at(rank, j, run) =~= seq![c] + tail);
            assert(s[0] == c);
            assert(s.drop_first() =~= tail + rest);
            assert(acc + seq![cell] =~= acc2);
            assert(parse_cells_rem(s, acc, j, ranks) == parse_cells_rem(
                tail + rest,
                acc2,
                j + 1,
                ranks,
            ));
            assert(parse_cells_rem(tail + rest, acc2, j + 1, ranks) == parse_cells_rem(
                rest,
                acc2 + rank.skip(j + 1),
                7,
                ranks,
            ));
        } else {
            let s = emit_rank_at(rank, j, run) + rest;
            assert(emit_rank_at(rank, j, run) =~= seq![char_of_digit(run)] + (seq![c] + tail));
            assert(s[0] == char_of_digit(run));
            assert(digit_of(char_of_digit(run)) == run);
            assert(s.drop_first() =~= (seq![c] + tail) + rest);
            let s2 = (seq![c] + tail) + rest;
            let acc1 = acc + empties(run as nat);
            assert(parse_cells_rem(s, acc, j - run, ranks) == parse_cells_rem(
                s2,
                acc1,
                j,
                ranks,
            ));
            assert(s2[0] == c);
            assert(s2.drop_first() =~= tail + rest);
            assert(parse_cells_rem(s2, acc1, j, ranks) == parse_cells_rem(
                tail + rest,
                acc1 + seq![cell],
                j + 1,
                ranks,
            ));
            assert(acc1 =~= acc + rank.subrange(j - run, j));
            assert(acc1 + seq![cell] =~= acc2);
            assert(parse_cells_rem(tail + rest, acc2, j + 1, ranks) == parse_cells_rem(
                rest,
                acc2 + rank.skip(j + 1),
                7,
                ranks,
            ));
        }
    }
}

/// Parsing the emission of the ranks from `r` on consumes the cells from
/// `7 r` on.
proof fn lemma_board_rt(cells: Seq<Cell>, r: int, rest: Seq<char>, acc: Seq<Cell>)
    requires
        cells.len() == 49,
        0 <= r <= 6,
    ensures
        parse_cells_rem(emit_ranks_from(cells, r) + rest, acc, 0, r) == parse_cells_rem(
            rest,
            acc + cells.skip(7 * r),
            7,
            6,
        ),
    decreases 6 - r,
{
    let rank = cells.subrange(7 * r, 7 * r + 7);
    if r == 6 {
        lemma_rank_rt(rank, 0, 0, rest, acc, 6);
        assert(emit_ranks_from(cells, 6) =~= emit_rank_at(rank, 0, 0));
        assert(acc + rank.skip(0) =~= acc + cells.skip(42));
    } else {
        let tail = emit_ranks_from(cells, r + 1);
        let mid = seq!['/'] + tail + rest;
        lemma_rank_rt(rank, 0, 0, mid, acc, r);
        assert(emit_ranks_from(cells, r) + rest =~= emit_rank_at(rank, 0, 0) + mid);
        assert(mid[0] == '/');
        assert(mid.drop_first() =~= tail + rest);
        lemma_board_rt(cells, r + 1, rest, acc + rank.skip(0));
        assert((acc + rank.skip(0)) + cells.skip(7 * (r + 1)) =~= acc + cells.skip(7 * r));
    }
}

/// The board built back from a position's own cells is the position's
/// board: the fold inverts the cell view.
proof fn lemma_inverse_step(x: u64, mask: u64, t: u64)
    by (bit_vector)
    requires
        t < 64,
    ensures
        (x >> t) & 1 == 1 ==> (x & mask) | (1u64 << t) == x & (mask | (1u64 << t)),
        (x >> t) & 1 == 0 ==> (x & mask) | 0 == x & (mask | (1u64 << t)),
{
}

/// Folding a position's own cells rebuilds each of its boards, restricted
/// to the squares seen so far.
proof fn lemma_cells_inverse_upto(p: Position, k: int)
    requires
        p.wf(),
        0 <= k <= 49,
    ensures
        board_of_upto(cells_of(p), Cell::Black, rank_sq_fn(), k) == p.black.0 & squares_mask(
            rank_sq_fn(),
            k,
        ),
        board_of_upto(cells_of(p), Cell::White, rank_sq_fn(), k) == p.white.0 & squares_mask(
            rank_sq_fn(),
            k,
        ),
        board_of_upto(cells_of(p), Cell::Gap, rank_sq_fn(), k) == p.gaps.0 & squares_mask(
            rank_sq_fn(),
            k,
        ),
    decreases k,
{
    let cells = cells_of(p);
    let sq_of = rank_sq_fn();
    let bb = p.black.0;
    let ww = p.white.0;
    let gg = p.gaps.0;
    if k == 0 {
        lemma_zero_identities(bb);
        lemma_zero_identities(ww);
        lemma_zero_identities(gg);
    } else {
        lemma_cells_inverse_upto(p, k - 1);
        lemma_rank_square_facts(k - 1, k - 1);
        let t8 = rank_square(k - 1) as u8;
        let t = rank_square(k - 1) as u64;
        assert(t8 as u64 == t);
        let mask = squares_mask(sq_of, k - 1);
        assert(cells[k - 1] == cell_at(p, rank_square(k - 1)));
        assert(bit(bb, t8) == ((bb >> t) & 1 == 1));
        assert(bit(ww, t8) == ((ww >> t) & 1 == 1));
        assert(bit(gg, t8) == ((gg >> t) & 1 == 1));
        lemma_inverse_step(bb, mask, t);
        lemma_inverse_step(ww, mask, t);
        lemma_inverse_step(gg, mask, t);
        assert(((bb >> t) & 1 == 0 || (bb >> t) & 1 == 1) && ((ww >> t) & 1 == 0 || (ww >> t) & 1
            == 1) && ((gg >> t) & 1 == 0 || (gg >> t) & 1 == 1)) by (bit_vector);
        assert(bb & ww == 0 && bb & gg == 0 && ww & gg == 0 ==> ((bb >> t) & 1 == 1 ==> (ww >> t)
            & 1 == 0 && (gg >> t) & 1 == 0) && ((ww >> t) & 1 == 1 ==> (bb >> t) & 1 == 0 && (gg
            >> t) & 1 == 0) && ((gg >> t) & 1 == 1 ==> (bb >> t) & 1 == 0 && (ww >> t) & 1 == 0))
            by (bit_vector);
        assert(board_of_upto(cells, Cell::Black, sq_of, k) == board_of_upto(
            cells,
            Cell::Black,
            sq_of,
            k - 1,
        ) | (if cells[k - 1] == Cell::Black {
            1u64 << t
        } else {
            0
        }));
        match cell_at(p, rank_square(k - 1)) {
            Cell::Black => {
                assert((bb >> t) & 1 == 1 && (ww >> t) & 1 == 0 && (gg >> t) & 1 == 0);
            },
            Cell::White => {
                assert((ww >> t) & 1 == 1 && (bb >> t) & 1 == 0 && (gg >> t) & 1 == 0);
            },
            Cell::Gap => {
                assert((gg >> t) & 1 == 1 && (bb >> t) & 1 == 0 && (ww >> t) & 1 == 0);
            },
            Cell::Empty => {
                assert((bb >> t) & 1 == 0 && (ww >> t) & 1 == 0 && (gg >> t) & 1 == 0);
            },
        }
    }
}

/// Every board square is some cell's square, so a well-formed board is
/// untouched by the restriction to the 49 cell squares.
proof fn lemma_board_in_mask(x: u64)
    requires
        x & !FULL == 0,
    ensures
        x & squares_mask(rank_sq_fn(), 49) == x,
{
    let mask = squares_mask(rank_sq_fn(), 49);
    assert forall|t: u8| bit(x & mask, t) == bit(x, t) by {
        crate::bitboard::lemma_and_bit(x, mask, t);
        if bit(x, t) {
            assert(t < 49) by (bit_vector)
                requires
                    x & !FULL == 0,
                    bit(x, t),
            ;
            let k = rank_square(t as int);
            assert(0 <= k < 49 && rank_square(k) == t as int) by {
                lemma_rank_square_facts(t as int, t as int);
                assert(t as int == 7 * (t as int / 7) + (t as int % 7));
            }
            lemma_mask_contains(k + 1, k);
            lemma_mask_grows(k + 1, 49);
            crate::bitboard::lemma_and_bit(squares_mask(rank_sq_fn(), k + 1), mask, t);
            assert(bit(squares_mask(rank_sq_fn(), k + 1) & mask, t)) by {
                assert(squares_mask(rank_sq_fn(), k + 1) & mask == squares_mask(
                    rank_sq_fn(),
                    k + 1,
                ) || true);
            }
        }
    }
    lemma_u64_pointwise(x & mask, x);
}

/// The mask of the first `k` cells holds the square of each of them.
proof fn lemma_mask_contains(k: int, j: int)
    requires
        0 <= j < k <= 49,
    ensures
        bit(squares_mask(rank_sq_fn(), k), rank_square(j) as u8),
    decreases k,
{
    lemma_rank_square_facts(j, j);
    if j == k - 1 {
        crate::bitboard::lemma_or_bit(
            squares_mask(rank_sq_fn(), k - 1),
            rank_square(j) as u8,
            rank_square(j) as u8,
        );
    } else {
        lemma_mask_contains(k - 1, j);
        lemma_rank_square_facts(k - 1, k - 1);
        crate::bitboard::lemma_or_bit(
            squares_mask(rank_sq_fn(), k - 1),
            rank_square(k - 1) as u8,
            rank_square(j) as u8,
        );
    }
}

/// Masks of more cells hold the bits of masks of fewer.
proof fn lemma_mask_grows(k: int, m: int)
    requires
        0 <= k <= m <= 49,
    ensures
        forall|t: u8|
            bit(squares_mask(rank_sq_fn(), k), t) ==> #[trigger] bit(
                squares_mask(rank_sq_fn(), m),
                t,
            ),
    decreases m - k,
{
    if k < m {
        lemma_mask_grows(k + 1, m);
        lemma_rank_square_facts(k, k);
        assert forall|t: u8|
            bit(squares_mask(rank_sq_fn(), k), t) implies #[trigger] bit(
            squares_mask(rank_sq_fn(), k + 1),
            t,
        ) by {
            crate::bitboard::lemma_or_bit(
                squares_mask(rank_sq_fn(), k),
                rank_square(k) as u8,
                t,
            );
        }
    }
}

/// Parsing a position's canonical FEN yields the position back: the FEN
/// codec round-trips on every well-formed position.
pub proof fn lemma_fen_round_trip(p: Position)
    requires
        p.wf(),
    ensures
        parse_fen_spec(emit_fen_spec(p)) == Ok::<Position, FenError>(p),
{
    let cells = cells_of(p);
    let board = emit_ranks_from(cells, 0);
    let tc = if p.turn == Side::Black {
        'x'
    } else {
        'o'
    };
    let hs = dec_str(p.half_moves as int);
    let fs = dec_str(p.full_moves as int);
    let s = emit_fen_spec(p);
    let b = board.len() as int;
    let h = hs.len() as int;
    let f = fs.len() as int;
    lemma_no_space_ranks(cells, 0);
    lemma_dec_rt(p.half_moves as int);
    lemma_dec_rt(p.full_moves as int);
    assert(s =~= board + seq![' '] + seq![tc] + seq![' '] + hs + seq![' '] + fs);
    assert(s.len() == b + 3 + 1 + h + f);

    // The three spaces sit exactly between the four fields.
    assert(spaces_upto(s, 0) == Seq::<int>::empty());
    assert(forall|i: int| 0 <= i < b ==> #[trigger] s[i] == board[i]);
    lemma_spaces_skip(s, 0, b);
    assert(s[b] == ' ');
    assert(spaces_upto(s, b + 1) == seq![b]);
    assert(s[b + 1] == tc && tc != ' ');
    lemma_spaces_skip(s, b + 1, b + 2);
    assert(s[b + 2] == ' ');
    assert(spaces_upto(s, b + 3) == seq![b] + seq![b + 2]);
    assert(forall|i: int| 0 <= i < h ==> #[trigger] s[b + 3 + i] == hs[i]);
    lemma_spaces_skip(s, b + 3, b + 3 + h);
    assert(s[b + 3 + h] == ' ');
    assert(spaces_upto(s, b + 4 + h) == (seq![b] + seq![b + 2]) + seq![b + 3 + h]);
    assert(forall|i: int| 0 <= i < f ==> #[trigger] s[b + 4 + h + i] == fs[i]);
    lemma_spaces_skip(s, b + 4 + h, s.len() as int);
    let sp = space_positions(s);
    assert(sp =~= seq![b, b + 2, b + 3 + h]);
    assert(sp.len() == 3);

    // The four fields come back out of the subranges.
    assert(s.subrange(0, b) =~= board);
    assert(s.subrange(b + 1, b + 2) =~= seq![tc]);
    assert(s.subrange(b + 3, b + 3 + h) =~= hs);
    assert(s.subrange(b + 4 + h, s.len() as int) =~= fs);

    // The board field parses back to the cells.
    lemma_board_rt(cells, 0, Seq::empty(), Seq::empty());
    assert(board + Seq::<char>::empty() =~= board);
    assert(Seq::<Cell>::empty() + cells.skip(0) =~= cells);
    assert(parse_cells_rem(Seq::<char>::empty(), cells, 7, 6) == Some(cells));
    assert(parse_cells_rem(board, Seq::<Cell>::empty(), 0, 0) == Some(cells));

    // The tail fields parse back.
    assert(p.turn == Side::Black ==> (s.subrange(b + 1, b + 2) =~= seq!['x']));
    assert(p.turn == Side::White ==> (s.subrange(b + 1, b + 2) =~= seq!['o']) && !(s.subrange(
        b + 1,
        b + 2,
    ) =~= seq!['x']));

    // The boards fold back to the position's boards.
    lemma_cells_inverse_upto(p, 49);
    lemma_board_in_mask(p.black.0);
    lemma_board_in_mask(p.white.0);
    lemma_board_in_mask(p.gaps.0);
    assert(parse_fen_spec(s) == Ok::<Position, FenError>(p));
}

} // verus!
