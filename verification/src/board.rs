//! A 7x7 board of tiles: the grid model behind a graphical front end, with
//! its own lenient board-text codec, stone counting and move application.

use crate::distance::chebyshev;
use crate::fen::{emit_ranks_from, Cell};
use crate::moving::{null_move, Move};
use crate::stone::{stone_of_player, Stone};
use crate::tile::Tile;
use vstd::prelude::*;

verus! {

/// Why a board text was rejected.
#[derive(Debug, Clone)]
pub enum FenError {
    /// The text holds a character outside the board grammar, at `pos`.
    InvalidCharacter { fen: String, pos: usize },
}

/// The side length of the board.
pub const SIZE: usize = 7;

/// The parser state while reading a board text: the tiles so far, the
/// cursor column and row, and how many blocked squares were announced.
pub struct ParseState {
    pub tiles: Seq<Tile>,
    pub x: int,
    pub y: int,
    pub blocked: int,
}

/// A fresh 49-tile grid, tile (x, y) at index `x * 7 + y`.
pub open spec fn fresh_tiles() -> Seq<Tile> {
    Seq::new(49, |k: int| Tile::new_spec(((k / 7) as usize, (k % 7) as usize)))
}

/// A column coordinate saturated so the cursor cannot run away.
pub open spec fn sat_add(v: int, d: int) -> int {
    if v + d > 63 {
        63
    } else {
        v + d
    }
}

/// One parsing step of the lenient board grammar: digits skip squares,
/// `/` opens the next row, stones and blocks land only inside the grid,
/// and every `-` counts as blocked whether or not it landed.
pub open spec fn parse_step(st: ParseState, c: char) -> Option<ParseState> {
    let d = crate::fen::digit_of(c);
    if c == 'x' || c == 'o' {
        let stone = if c == 'x' {
            Stone::Dark
        } else {
            Stone::Light
        };
        let tiles2 = if 0 <= st.x < 7 && 0 <= st.y < 7 {
            st.tiles.update(st.x * 7 + st.y, st.tiles[st.x * 7 + st.y].with_stone(stone))
        } else {
            st.tiles
        };
        Some(ParseState { tiles: tiles2, x: sat_add(st.x, 1), ..st })
    } else if c == '-' {
        let tiles2 = if 0 <= st.x < 7 && 0 <= st.y < 7 {
            st.tiles.update(st.x * 7 + st.y, st.tiles[st.x * 7 + st.y].with_blocked())
        } else {
            st.tiles
        };
        Some(
            ParseState {
                tiles: tiles2,
                x: sat_add(st.x, 1),
                blocked: st.blocked + 1,
                ..st
            },
        )
    } else if 1 <= d <= 9 {
        Some(ParseState { x: sat_add(st.x, d), ..st })
    } else if c == '/' {
        Some(ParseState { x: 0, y: sat_add(st.y, 1), ..st })
    } else {
        None
    }
}

/// Folds the parser over a whole board text; a failure reports the index
/// of the offending character.
pub open spec fn parse_board(s: Seq<char>, st: ParseState, k: int) -> Result<ParseState, int>
    decreases s.len() - k,
{
    if k < 0 || k >= s.len() {
        Ok(st)
    } else {
        match parse_step(st, s[k]) {
            Option::Some(st2) => parse_board(s, st2, k + 1),
            Option::None => Err(k),
        }
    }
}

/// The cell a tile shows.
pub open spec fn cell_of_tile(t: Tile) -> Cell {
    if t.blocked_spec() {
        Cell::Gap
    } else {
        match t.stone_spec() {
            Some(Stone::Dark) => Cell::Black,
            Some(Stone::Light) => Cell::White,
            None => Cell::Empty,
        }
    }
}

/// How many tiles hold the given stone.
pub open spec fn count_stone(tiles: Seq<Tile>, which: Stone) -> int
    decreases tiles.len(),
{
    if tiles.len() == 0 {
        0int
    } else {
        count_stone(tiles.drop_last(), which) + (if tiles.last().stone_spec() == Some(which) {
            1int
        } else {
            0int
        })
    }
}

/// The board: 49 tiles in column-major order plus the count of announced
/// blocked squares.
pub struct Board {
    pub tiles: Vec<Tile>,
    pub blocked: usize,
}

impl Board {
    /// The tiles as a sequence; tile (x, y) sits at index `x * 7 + y`.
    pub open spec fn tiles_spec(self) -> Seq<Tile> {
        self.tiles@
    }

    /// The announced blocked-square count.
    pub open spec fn blocked_spec(self) -> int {
        self.blocked as int
    }

    /// The grid is complete and every tile knows its own place.
    pub open spec fn wf(self) -> bool {
        &&& self.tiles@.len() == 49
        &&& forall|x: int, y: int|
            0 <= x < 7 && 0 <= y < 7 ==> (#[trigger] self.tiles@[x * 7 + y]).pos_spec() == (
            x as usize,
            y as usize,
        )
    }

    /// The tile at grid place (x, y).
    pub open spec fn tile_at(self, x: int, y: int) -> Tile {
        self.tiles@[x * 7 + y]
    }

    /// The board's cells in text order: row 0 first, left to right.
    pub open spec fn board_cells(self) -> Seq<Cell> {
        Seq::new(49, |k: int| cell_of_tile(self.tiles@[(k % 7) * 7 + k / 7]))
    }

    /// A square of the window around (x, y) at Chebyshev distance at most
    /// `d` can still be played on.
    pub open spec fn free_square_near(self, x: int, y: int, d: int) -> bool {
        exists|i: int, j: int|
            0 <= i < 7 && 0 <= j < 7 && !(i == x && j == y) && chebyshev(
                (x as u8, y as u8),
                (i as u8, j as u8),
            ) <= d && (#[trigger] self.tiles@[i * 7 + j]).stone_spec() is None
                && !self.tiles@[i * 7 + j].blocked_spec()
    }

    /// An empty board with no blocked squares.
    pub fn new() -> (r: Board)
        ensures
            r.wf(),
            r.tiles_spec() =~= fresh_tiles(),
            r.blocked_spec() == 0,
    {
        let mut tiles: Vec<Tile> = Vec::new();
        let mut x: usize = 0;
        while x < 7
            invariant
                x <= 7,
                tiles@.len() == 7 * x,
                forall|k: int| 0 <= k < tiles@.len() ==> tiles@[k] == fresh_tiles()[k],
            decreases 7 - x,
        {
            let mut y: usize = 0;
            while y < 7
                invariant
                    x < 7,
                    y <= 7,
                    tiles@.len() == 7 * x + y,
                    forall|k: int| 0 <= k < tiles@.len() ==> tiles@[k] == fresh_tiles()[k],
                decreases 7 - y,
            {
                tiles.push(Tile::new((x, y)));
                y = y + 1;
            }
            x = x + 1;
        }
        proof {
            assert(tiles@ =~= fresh_tiles());
            assert(forall|a: int, b: int|
                0 <= a < 7 && 0 <= b < 7 ==> (#[trigger] fresh_tiles()[a * 7 + b]).pos_spec() == (
                a as usize,
                b as usize,
            ));
        }
        Board { tiles, blocked: 0 }
    }

    /// Reads a board text onto a fresh board; stones and blocks outside the
    /// grid are dropped silently, an unknown character is an error naming
    /// its position.
    pub fn from_fen(fen: &str) -> (r: Result<Board, FenError>)
        ensures
            ({
                let init = ParseState { tiles: fresh_tiles(), x: 0, y: 0, blocked: 0 };
                match parse_board(fen@, init, 0) {
                    Ok(st) => r is Ok && r->Ok_0.wf() && r->Ok_0.tiles_spec() == st.tiles
                        && r->Ok_0.blocked_spec() == st.blocked,
                    Err(p) => r is Err && (r->Err_0 matches FenError::InvalidCharacter {
                        fen: f,
                        pos,
                    } && f@ == fen@ && pos == p),
                }
            }),
    {
        let mut board = Board::new();
        let ghost init = ParseState { tiles: fresh_tiles(), x: 0, y: 0, blocked: 0 };
        let mut x: usize = 0;
        let mut y: usize = 0;
        let n = fen.unicode_len();
        let mut i: usize = 0;
        while i < n
            invariant
                i <= n,
                n == fen@.len(),
                board.wf(),
                x <= 63,
                y <= 63,
                board.blocked <= i,
                init == (ParseState { tiles: fresh_tiles(), x: 0, y: 0, blocked: 0 }),
                parse_board(fen@, init, 0) == parse_board(
                    fen@,
                    ParseState {
                        tiles: board.tiles@,
                        x: x as int,
                        y: y as int,
                        blocked: board.blocked as int,
                    },
                    i as int,
                ),
            decreases n - i,
        {
            let ghost pre = ParseState {
                tiles: board.tiles@,
                x: x as int,
                y: y as int,
                blocked: board.blocked as int,
            };
            let c = fen.get_char(i);
            if c == 'x' || c == 'o' {
                let stone = if c == 'x' {
                    Stone::Dark
                } else {
                    Stone::Light
                };
                if x < 7 && y < 7 {
                    let idx = x * 7 + y;
                    self_set_stone(&mut board.tiles, idx, stone);
                    proof {
                        assert(board.tiles@ =~= pre.tiles.update(
                            pre.x * 7 + pre.y,
                            pre.tiles[pre.x * 7 + pre.y].with_stone(stone),
                        ));
                    }
                }
                if x < 63 {
                    x = x + 1;
                }
            } else if c == '-' {
                if x < 7 && y < 7 {
                    let idx = x * 7 + y;
                    self_set_blocked(&mut board.tiles, idx);
                    proof {
                        assert(board.tiles@ =~= pre.tiles.update(
                            pre.x * 7 + pre.y,
                            pre.tiles[pre.x * 7 + pre.y].with_blocked(),
                        ));
                    }
                }
                board.blocked = board.blocked + 1;
                if x < 63 {
                    x = x + 1;
                }
            } else {
                let d = crate::fen::digit_value(c);
                if 1 <= d && d <= 9 {
                    if x + d as usize > 63 {
                        x = 63;
                    } else {
                        x = x + d as usize;
                    }
                } else if c == '/' {
                    x = 0;
                    if y < 63 {
                        y = y + 1;
                    }
                } else {
                    proof {
                        assert(parse_step(pre, fen@[i as int]) is None);
                        assert(parse_board(fen@, pre, i as int) == Err::<ParseState, int>(
                            i as int,
                        ));
                    }
                    return Err(FenError::InvalidCharacter { fen: fen.to_owned(), pos: i });
                }
            }
            proof {
                assert(parse_step(pre, fen@[i as int]) == Some(
                    ParseState {
                        tiles: board.tiles@,
                        x: x as int,
                        y: y as int,
                        blocked: board.blocked as int,
                    },
                ));
            }
            i = i + 1;
        }
        proof {
            assert(parse_board(
                fen@,
                ParseState {
                    tiles: board.tiles@,
                    x: x as int,
                    y: y as int,
                    blocked: board.blocked as int,
                },
                n as int,
            ) == Ok::<ParseState, int>(
                ParseState {
                    tiles: board.tiles@,
                    x: x as int,
                    y: y as int,
                    blocked: board.blocked as int,
                },
            ));
        }
        Ok(board)
    }

    /// Writes the board text: rows top first, empty runs as digits.
    pub fn to_fen(&self) -> (r: String)
        requires
            self.wf(),
        ensures
            r@ == emit_ranks_from(self.board_cells(), 0),
    {
        let ghost cells = self.board_cells();
        let mut out: Vec<char> = Vec::new();
        let mut rk: usize = 0;
        while rk < 7
            invariant
                rk <= 7,
                self.wf(),
                cells == self.board_cells(),
                out@ + emit_ranks_from(cells, rk as int) == emit_ranks_from(cells, 0),
            decreases 7 - rk,
        {
            let ghost rank = cells.subrange(7 * rk as int, 7 * rk as int + 7);
            let ghost target = out@ + emit_ranks_from(cells, rk as int);
            proof {
                assert(emit_ranks_from(cells, rk as int) == crate::fen::emit_rank_at(rank, 0, 0)
                    + (if rk < 6 {
                    seq!['/']
                } else {
                    Seq::<char>::empty()
                }) + emit_ranks_from(cells, rk as int + 1));
            }
            let mut run: u8 = 0;
            let mut j: usize = 0;
            while j < 7
                invariant
                    j <= 7,
                    run <= j,
                    rk < 7,
                    self.wf(),
                    cells == self.board_cells(),
                    rank == cells.subrange(7 * rk as int, 7 * rk as int + 7),
                    out@ + crate::fen::emit_rank_at(rank, j as int, run as int) + (
                    if rk < 6 {
                        seq!['/']
                    } else {
                        Seq::<char>::empty()
                    }) + emit_ranks_from(cells, rk as int + 1) == target,
                decreases 7 - j,
            {
                proof {
                    assert(rank[j as int] == cells[7 * rk as int + j as int]);
                    assert((7 * rk as int + j as int) % 7 == j as int && (7 * rk as int
                        + j as int) / 7 == rk as int) by (nonlinear_arith)
                        requires
                            0 <= j < 7,
                            0 <= rk < 7,
                    ;
                    assert(rank[j as int] == cell_of_tile(self.tiles@[j as int * 7 + rk as int]));
                }
                let tile = &self.tiles[j * 7 + rk];
                if tile.is_blocked() {
                    if run > 0 {
                        out.push(crate::fen::digit_char(run));
                    }
                    out.push('-');
                    run = 0;
                } else {
                    match tile.get_stone() {
                        Some(Stone::Dark) => {
                            if run > 0 {
                                out.push(crate::fen::digit_char(run));
                            }
                            out.push('x');
                            run = 0;
                        },
                        Some(Stone::Light) => {
                            if run > 0 {
                                out.push(crate::fen::digit_char(run));
                            }
                            out.push('o');
                            run = 0;
                        },
                        None => {
                            run = run + 1;
                        },
                    }
                }
                proof {
                    assert(out@ + crate::fen::emit_rank_at(rank, j as int + 1, run as int) + (
                    if rk < 6 {
                        seq!['/']
                    } else {
                        Seq::<char>::empty()
                    }) + emit_ranks_from(cells, rk as int + 1) =~= target);
                }
                j = j + 1;
            }
            if run > 0 {
                out.push(crate::fen::digit_char(run));
            }
            if rk < 6 {
                out.push('/');
            }
            proof {
                assert(out@ + emit_ranks_from(cells, rk as int + 1) =~= target);
            }
            rk = rk + 1;
        }
        proof {
            assert(emit_ranks_from(cells, 7) =~= Seq::<char>::empty());
            assert(out@ =~= emit_ranks_from(cells, 0));
        }
        crate::fen::string_from_chars(&out)
    }

    /// The tile at a grid place.
    pub fn get_tile(&self, pos: (usize, usize)) -> (r: &Tile)
        requires
            self.wf(),
            pos.0 < 7,
            pos.1 < 7,
        ensures
            *r == self.tile_at(pos.0 as int, pos.1 as int),
    {
        &self.tiles[pos.0 * 7 + pos.1]
    }

    /// Mutable access to the tile at a grid place; writing through the
    /// borrow rewrites exactly that tile.
    pub fn get_tile_mut(&mut self, pos: (usize, usize)) -> (r: &mut Tile)
        requires
            old(self).wf(),
            pos.0 < 7,
            pos.1 < 7,
        ensures
            *r == old(self).tile_at(pos.0 as int, pos.1 as int),
            final(self).tiles@ == old(self).tiles@.update(
                pos.0 as int * 7 + pos.1 as int,
                *final(r),
            ),
            final(self).blocked_spec() == old(self).blocked_spec(),
    {
        &mut self.tiles[pos.0 * 7 + pos.1]
    }

    /// The tiles in column-major order.
    pub fn get_tiles(&self) -> (r: &Vec<Tile>)
        ensures
            r@ == self.tiles_spec(),
    {
        &self.tiles
    }

    /// Mutable access to all the tiles.
    pub fn get_tiles_mut(&mut self) -> (r: &mut Vec<Tile>)
        ensures
            *r == old(self).tiles,
            final(self).tiles == *final(r),
            final(self).blocked_spec() == old(self).blocked_spec(),
    {
        &mut self.tiles
    }

    /// The grid places at Chebyshev distance exactly 1 from `pos`, row
    /// by row, each exactly once.
    pub fn get_surrounding_tiles(&self, pos: (usize, usize)) -> (r: Vec<(usize, usize)>)
        requires
            pos.0 < 7,
            pos.1 < 7,
        ensures
            forall|k: int|
                0 <= k < r@.len() ==> {
                    let q = #[trigger] r@[k];
                    q.0 < 7 && q.1 < 7 && !(q.0 == pos.0 && q.1 == pos.1) && chebyshev(
                        (pos.0 as u8, pos.1 as u8),
                        (q.0 as u8, q.1 as u8),
                    ) == 1
                },
            forall|a: usize, b: usize|
                a < 7 && b < 7 && !(a == pos.0 && b == pos.1) && chebyshev(
                    (pos.0 as u8, pos.1 as u8),
                    (a as u8, b as u8),
                ) == 1 ==> r@.contains((a, b)),
            r@.no_duplicates(),
    {
        let x = pos.0;
        let y = pos.1;
        let ilo = if x >= 1 {
            x - 1
        } else {
            0
        };
        let ihi = if x + 2 <= 7 {
            x + 2
        } else {
            7
        };
        let jlo = if y >= 1 {
            y - 1
        } else {
            0
        };
        let jhi = if y + 2 <= 7 {
            y + 2
        } else {
            7
        };
        let mut out: Vec<(usize, usize)> = Vec::new();
        let mut i: usize = ilo;
        while i < ihi
            invariant
                x == pos.0,
                y == pos.1,
                x < 7,
                y < 7,
                ilo <= i <= ihi <= 7,
                ilo == (if x >= 1 {
                    x - 1
                } else {
                    0
                }),
                ihi == (if x + 2 <= 7 {
                    x + 2
                } else {
                    7
                }),
                jlo == (if y >= 1 {
                    y - 1
                } else {
                    0
                }),
                jhi == (if y + 2 <= 7 {
                    y + 2
                } else {
                    7
                }),
                forall|k: int|
                    0 <= k < out@.len() ==> {
                        let q = #[trigger] out@[k];
                        q.0 < 7 && q.1 < 7 && !(q.0 == x && q.1 == y) && chebyshev(
                            (x as u8, y as u8),
                            (q.0 as u8, q.1 as u8),
                        ) == 1 && (q.0 as int) < i
                    },
                forall|a: usize, b: usize|
                    a < 7 && b < 7 && !(a == x && b == y) && chebyshev(
                        (x as u8, y as u8),
                        (a as u8, b as u8),
                    ) == 1 && (a as int) < i ==> out@.contains((a, b)),
                out@.no_duplicates(),
            decreases ihi - i,
        {
            let mut j: usize = jlo;
            while j < jhi
                invariant
                    x == pos.0,
                    y == pos.1,
                    x < 7,
                    y < 7,
                    ilo <= i < ihi <= 7,
                    jlo <= j <= jhi <= 7,
                    ilo == (if x >= 1 {
                        x - 1
                    } else {
                        0
                    }),
                    ihi == (if x + 2 <= 7 {
                        x + 2
                    } else {
                        7
                    }),
                    jlo == (if y >= 1 {
                        y - 1
                    } else {
                        0
                    }),
                    jhi == (if y + 2 <= 7 {
                        y + 2
                    } else {
                        7
                    }),
                    forall|k: int|
                        0 <= k < out@.len() ==> {
                            let q = #[trigger] out@[k];
                            q.0 < 7 && q.1 < 7 && !(q.0 == x && q.1 == y) && chebyshev(
                                (x as u8, y as u8),
                                (q.0 as u8, q.1 as u8),
                            ) == 1 && ((q.0 as int) < i || (q.0 as int == i && (q.1 as int) < j))
                        },
                    forall|a: usize, b: usize|
                        a < 7 && b < 7 && !(a == x && b == y) && chebyshev(
                            (x as u8, y as u8),
                            (a as u8, b as u8),
                        ) == 1 && ((a as int) < i || (a as int == i && (b as int) < j))
                            ==> out@.contains((a, b)),
                    out@.no_duplicates(),
                decreases jhi - j,
            {
                if !(i == x && j == y) {
                    let ghost before = out@;
                    out.push((i, j));
                    proof {
                        assert(out@ == before.push((i, j)));
                        assert(chebyshev((x as u8, y as u8), (i as u8, j as u8)) == 1);
                        assert(!before.contains((i, j)));
                        assert forall|a: usize, b: usize|
                            a < 7 && b < 7 && !(a == x && b == y) && chebyshev(
                                (x as u8, y as u8),
                                (a as u8, b as u8),
                            ) == 1 && ((a as int) < i || (a as int == i && (b as int) < j
                                + 1)) implies out@.contains((a, b)) by {
                            if a == i && b == j {
                                assert(out@[out@.len() - 1] == (a, b));
                            } else {
                                assert(before.contains((a, b)));
                                let k = choose|k: int|
                                    0 <= k < before.len() && before[k] == (a, b);
                                assert(out@[k] == (a, b));
                            }
                        }
                    }
                } else {
                    proof {
                        assert forall|a: usize, b: usize|
                            a < 7 && b < 7 && !(a == x && b == y) && chebyshev(
                                (x as u8, y as u8),
                                (a as u8, b as u8),
                            ) == 1 && ((a as int) < i || (a as int == i && (b as int) < j
                                + 1)) implies out@.contains((a, b)) by {
                            assert(!(a as int == i && b as int == j));
                        }
                    }
                }
                j = j + 1;
            }
            proof {
                assert forall|a: usize, b: usize|
                    a < 7 && b < 7 && !(a == x && b == y) && chebyshev(
                        (x as u8, y as u8),
                        (a as u8, b as u8),
                    ) == 1 && (a as int) < i + 1 implies out@.contains((a, b)) by {
                    if a as int == i {
                        assert(jlo <= b && (b as int) < jhi);
                    }
                }
            }
            i = i + 1;
        }
        out
    }

    /// Counts the stones of each colour: (dark, light).
    pub fn count_stones(&self) -> (r: (usize, usize))
        requires
            self.wf(),
        ensures
            r.0 == count_stone(self.tiles_spec(), Stone::Dark),
            r.1 == count_stone(self.tiles_spec(), Stone::Light),
            r.0 + r.1 <= 49,
    {
        let mut dark: usize = 0;
        let mut light: usize = 0;
        let mut k: usize = 0;
        while k < 49
            invariant
                self.wf(),
                k <= 49,
                dark == count_stone(self.tiles_spec().take(k as int), Stone::Dark),
                light == count_stone(self.tiles_spec().take(k as int), Stone::Light),
                dark + light <= k,
            decreases 49 - k,
        {
            proof {
                assert(self.tiles_spec().take(k as int + 1).drop_last() =~= self.tiles_spec().take(
                    k as int,
                ));
                assert(self.tiles_spec().take(k as int + 1).last() == self.tiles_spec()[k as int]);
            }
            match self.tiles[k].get_stone() {
                Some(Stone::Dark) => {
                    dark = dark + 1;
                },
                Some(Stone::Light) => {
                    light = light + 1;
                },
                None => {},
            }
            k = k + 1;
        }
        proof {
            assert(self.tiles_spec().take(49) =~= self.tiles_spec());
        }
        (dark, light)
    }

    /// How many squares are still open, by the announced blocked count.
    pub fn count_empty(&self) -> (r: usize)
        requires
            self.wf(),
        ensures
            ({
                let used = count_stone(self.tiles_spec(), Stone::Dark) + count_stone(
                    self.tiles_spec(),
                    Stone::Light,
                ) + self.blocked_spec();
                r == if used <= 49 {
                    49 - used
                } else {
                    0int
                }
            }),
    {
        let (dark, light) = self.count_stones();
        if self.blocked > 49 - (dark + light) {
            0
        } else {
            49 - (dark + light) - self.blocked
        }
    }

    /// The game is over when a colour is gone or every open square is
    /// filled.
    pub fn game_over(&self) -> (r: bool)
        requires
            self.wf(),
        ensures
            ({
                let dark = count_stone(self.tiles_spec(), Stone::Dark);
                let light = count_stone(self.tiles_spec(), Stone::Light);
                r == (dark == 0 || light == 0 || dark + light + self.blocked_spec() == 49)
            }),
    {
        let (dark, light) = self.count_stones();
        dark == 0 || light == 0 || (self.blocked <= 49 && dark + light == 49 - self.blocked)
    }

    /// True when some square within Chebyshev distance 2 of (x, y) is open.
    pub fn can_tile_move(&self, pos: (usize, usize)) -> (r: bool)
        requires
            self.wf(),
            pos.0 < 7,
            pos.1 < 7,
        ensures
            r == self.free_square_near(pos.0 as int, pos.1 as int, 2),
    {
        let x = pos.0;
        let y = pos.1;
        let ilo = if x >= 2 {
            x - 2
        } else {
            0
        };
        let ihi = if x + 3 <= 7 {
            x + 3
        } else {
            7
        };
        let jlo = if y >= 2 {
            y - 2
        } else {
            0
        };
        let jhi = if y + 3 <= 7 {
            y + 3
        } else {
            7
        };
        let mut i: usize = ilo;
        while i < ihi
            invariant
                self.wf(),
                x == pos.0,
                y == pos.1,
                x < 7,
                y < 7,
                ilo <= i <= ihi <= 7,
                ilo == (if x >= 2 {
                    x - 2
                } else {
                    0
                }),
                ihi == (if x + 3 <= 7 {
                    x + 3
                } else {
                    7
                }),
                jlo == (if y >= 2 {
                    y - 2
                } else {
                    0
                }),
                jhi == (if y + 3 <= 7 {
                    y + 3
                } else {
                    7
                }),
                forall|a: int, b: int|
                    0 <= a < 7 && 0 <= b < 7 && !(a == x && b == y) && chebyshev(
                        (x as u8, y as u8),
                        (a as u8, b as u8),
                    ) <= 2 && a < i ==> (#[trigger] self.tiles@[a * 7 + b]).stone_spec() is Some
                        || self.tiles@[a * 7 + b].blocked_spec(),
            decreases ihi - i,
        {
            let mut j: usize = jlo;
            while j < jhi
                invariant
                    self.wf(),
                    x == pos.0,
                    y == pos.1,
                    x < 7,
                    y < 7,
                    ilo <= i < ihi <= 7,
                    jlo <= j <= jhi <= 7,
                    ilo == (if x >= 2 {
                        x - 2
                    } else {
                        0
                    }),
                    ihi == (if x + 3 <= 7 {
                        x + 3
                    } else {
                        7
                    }),
                    jlo == (if y >= 2 {
                        y - 2
                    } else {
                        0
                    }),
                    jhi == (if y + 3 <= 7 {
                        y + 3
                    } else {
                        7
                    }),
                    forall|a: int, b: int|
                        0 <= a < 7 && 0 <= b < 7 && !(a == x && b == y) && chebyshev(
                            (x as u8, y as u8),
                            (a as u8, b as u8),
                        ) <= 2 && (a < i || (a == i && b < j)) ==> (#[trigger] self.tiles@[a * 7
                            + b]).stone_spec() is Some || self.tiles@[a * 7 + b].blocked_spec(),
                decreases jhi - j,
            {
                if !(i == x && j == y) {
                    let tile = &self.tiles[i * 7 + j];
                    if tile.get_stone().is_none() && !tile.is_blocked() {
                        proof {
                            assert(chebyshev((x as u8, y as u8), (i as u8, j as u8)) <= 2);
                            assert((#[trigger] self.tiles@[i as int * 7 + j as int]).stone_spec()
                                is None && !self.tiles@[i as int * 7 + j as int].blocked_spec());
                            assert(self.free_square_near(x as int, y as int, 2));
                        }
                        return true;
                    }
                }
                j = j + 1;
            }
            i = i + 1;
        }
        proof {
            assert forall|a: int, b: int|
                0 <= a < 7 && 0 <= b < 7 && !(a == x && b == y) && chebyshev(
                    (x as u8, y as u8),
                    (a as u8, b as u8),
                ) <= 2 implies (#[trigger] self.tiles@[a * 7 + b]).stone_spec() is Some
                || self.tiles@[a * 7 + b].blocked_spec() by {
                assert(ilo <= a < ihi && jlo <= b < jhi);
            }
        }
        false
    }

    /// True when no stone of the player can reach an open square.
    pub fn cant_move(&self, player: usize) -> (r: bool)
        requires
            self.wf(),
        ensures
            r == !(exists|k: int|
                0 <= k < 49 && (#[trigger] self.tiles@[k]).stone_spec() == Some(
                    stone_of_player(player as int),
                ) && self.free_square_near(k / 7, k % 7, 2)),
    {
        let me = Stone::from_player(player);
        let mut k: usize = 0;
        while k < 49
            invariant
                self.wf(),
                k <= 49,
                me == stone_of_player(player as int),
                forall|q: int|
                    0 <= q < k && (#[trigger] self.tiles@[q]).stone_spec() == Some(me)
                        ==> !self.free_square_near(q / 7, q % 7, 2),
            decreases 49 - k,
        {
            let tile = &self.tiles[k];
            let stone = tile.get_stone();
            if stone == Some(me) {
                proof {
                    assert((k as int) / 7 < 7 && (k as int) % 7 < 7);
                    assert(self.tiles@[k as int].pos_spec() == (
                        ((k as int) / 7) as usize,
                        ((k as int) % 7) as usize,
                    )) by {
                        assert(k as int == (k as int / 7) * 7 + (k as int % 7));
                    }
                }
                let pos = tile.get_grid_pos();
                if self.can_tile_move(pos) {
                    return false;
                }
            }
            k = k + 1;
        }
        true
    }

    /// Whether `play_move` accepts the move: the null move always, and
    /// otherwise a landing square that is open and unblocked, with a stone
    /// on the source square unless the move stays where it is.
    pub open spec fn play_ok_spec(self, mv: Move) -> bool {
        ||| mv == null_move()
        ||| (!(self.tile_at(mv.from.0 as int, mv.from.1 as int).stone_spec() is None && !(mv.from
            == mv.to)) && self.tile_at(mv.to.0 as int, mv.to.1 as int).stone_spec() is None
            && !self.tile_at(mv.to.0 as int, mv.to.1 as int).blocked_spec())
    }

    /// The tile grid after an accepted non-null move: the moved stone lands
    /// on `to` — lifted off `from` when the move jumps, fresh otherwise —
    /// and every opposing stone at Chebyshev distance 1 of `to` turns into
    /// the mover's.
    pub open spec fn played_tiles_spec(self, mv: Move, player: usize) -> Seq<Tile> {
        let mover = stone_of_player(player as int);
        let stone = if chebyshev(mv.from, mv.to) > 1 {
            self.tile_at(mv.from.0 as int, mv.from.1 as int).stone_spec()->0
        } else {
            mover
        };
        Seq::new(
            49,
            |idx: int|
                {
                    let t = self.tiles@[idx];
                    let a = idx / 7;
                    let b = idx % 7;
                    if a == mv.to.0 as int && b == mv.to.1 as int {
                        t.with_stone(stone)
                    } else if chebyshev(mv.from, mv.to) > 1 && a == mv.from.0 as int && b
                        == mv.from.1 as int {
                        t.with_stone_taken()
                    } else if chebyshev(mv.to, (a as u8, b as u8)) == 1 && t.stone_spec() == Some(
                        stone_of_player(player as int + 1),
                    ) {
                        t.with_stone(mover)
                    } else {
                        t
                    }
                },
        )
    }

    /// Applies a move for `player`: the null move does nothing, a growth
    /// sets a fresh stone, a jump lifts the source stone first, and every
    /// opposing stone around the landing square is converted.  A move onto
    /// a taken or blocked square fails, as does a jump from an empty one;
    /// a failed jump has already lifted its stone.
    pub fn play_move(&mut self, mv: Move, player: usize) -> (r: Result<(), ()>)
        requires
            old(self).wf(),
            mv == null_move() || ((mv.from.0 as int) < 7 && (mv.from.1 as int) < 7 && (
            mv.to.0 as int) < 7 && (mv.to.1 as int) < 7),
        ensures
            final(self).wf(),
            final(self).blocked_spec() == old(self).blocked_spec(),
            r is Ok <==> old(self).play_ok_spec(mv),
            mv == null_move() ==> r is Ok && *final(self) == *old(self),
            r is Ok && mv != null_move() ==> final(self).tiles@ == old(self).played_tiles_spec(
                mv,
                player,
            ),
    {
        if mv.from.0 == 255 && mv.from.1 == 255 && mv.to.0 == 255 && mv.to.1 == 255 {
            return Ok(());
        }
        let dist = crate::distance::ChebyshevDistanceSelf::chebyshev_distance(&mv);
        let from = (mv.from.0 as usize, mv.from.1 as usize);
        let from_idx = from.0 * 7 + from.1;
        let to = (mv.to.0 as usize, mv.to.1 as usize);
        let to_idx = to.0 * 7 + to.1;
        proof {
            assert(from_idx as int == mv.from.0 as int * 7 + mv.from.1 as int);
            assert(to_idx as int == mv.to.0 as int * 7 + mv.to.1 as int);
            assert(from_idx == to_idx <==> (mv.from.0 == mv.to.0 && mv.from.1 == mv.to.1))
                by (nonlinear_arith)
                requires
                    from_idx as int == mv.from.0 as int * 7 + mv.from.1 as int,
                    to_idx as int == mv.to.0 as int * 7 + mv.to.1 as int,
                    mv.from.0 < 7 && mv.from.1 < 7 && mv.to.0 < 7 && mv.to.1 < 7,
            ;
        }
        let from_stone = self.tiles[from_idx].get_stone();
        if from_stone.is_none() && !(mv.from.0 == mv.to.0 && mv.from.1 == mv.to.1) {
            return Err(());
        }
        let stone: Stone;
        if dist > 1 {
            proof {
                assert(chebyshev(mv.from, mv.to) > 1);
                assert(!(mv.from.0 == mv.to.0 && mv.from.1 == mv.to.1));
            }
            let taken = take_stone(&mut self.tiles, from_idx);
            stone = match taken {
                Some(st) => st,
                None => {
                    proof {
                        assert(self.tiles@ =~= old(self).tiles@);
                    }
                    return Err(());
                },
            };
        } else {
            stone = Stone::from_player(player);
        }
        if self.tiles[to_idx].get_stone().is_some() || self.tiles[to_idx].is_blocked() {
            proof {
                assert(self.tiles@[to_idx as int] == old(self).tiles@[to_idx as int]);
            }
            return Err(());
        }
        proof {
            assert(old(self).play_ok_spec(mv));
        }
        self_set_stone(&mut self.tiles, to_idx, stone);
        proof {
            assert(self.tiles@ =~= mid_tiles(old(self).tiles@, mv, stone));
        }
        self.flood_captures(mv, player, stone, Ghost(*old(self)));
        Ok(())
    }

    /// Converts every opposing stone in the distance-1 window around the
    /// landing square, taking the grid from the landed middle state to the
    /// played one.
    #[verifier::rlimit(100)]
    fn flood_captures(&mut self, mv: Move, player: usize, stone: Stone, orig: Ghost<Board>)
        requires
            orig@.wf(),
            old(self).wf(),
            (mv.from.0 as int) < 7 && (mv.from.1 as int) < 7 && (mv.to.0 as int) < 7 && (
            mv.to.1 as int) < 7,
            stone == (if chebyshev(mv.from, mv.to) > 1 {
                orig@.tile_at(mv.from.0 as int, mv.from.1 as int).stone_spec()->0
            } else {
                stone_of_player(player as int)
            }),
            old(self).tiles@ == mid_tiles(orig@.tiles@, mv, stone),
            old(self).blocked_spec() == orig@.blocked_spec(),
        ensures
            final(self).wf(),
            final(self).blocked_spec() == old(self).blocked_spec(),
            final(self).tiles@ == orig@.played_tiles_spec(mv, player),
    {
        let to = (mv.to.0 as usize, mv.to.1 as usize);
        let ghost target = orig@.played_tiles_spec(mv, player);
        let other = core::ops::Not::not(Stone::from_player(player));
        let ilo = if to.0 >= 1 {
            to.0 - 1
        } else {
            0
        };
        let ihi = if to.0 + 2 <= 7 {
            to.0 + 2
        } else {
            7
        };
        let jlo = if to.1 >= 1 {
            to.1 - 1
        } else {
            0
        };
        let jhi = if to.1 + 2 <= 7 {
            to.1 + 2
        } else {
            7
        };
        proof {
            assert forall|a: int, b: int|
                0 <= a < 7 && 0 <= b < 7 && !(ilo <= a < ihi && jlo <= b < jhi)
                implies #[trigger] self.tiles@[a * 7 + b] == target[a * 7 + b] by {
                assert(chebyshev(mv.to, (a as u8, b as u8)) > 1);
                lemma_mid_vs_target(orig@, mv, player, stone, a, b);
            }
        }
        let mut i: usize = ilo;
        while i < ihi
            invariant
                self.wf(),
                orig@.wf(),
                to == (mv.to.0 as usize, mv.to.1 as usize),
                mv.from.0 < 7 && mv.from.1 < 7 && mv.to.0 < 7 && mv.to.1 < 7,
                stone == (if chebyshev(mv.from, mv.to) > 1 {
                    orig@.tile_at(mv.from.0 as int, mv.from.1 as int).stone_spec()->0
                } else {
                    stone_of_player(player as int)
                }),
                other == stone_of_player(player as int + 1),
                target == orig@.played_tiles_spec(mv, player),
                ilo <= i <= ihi <= 7,
                ilo == (if to.0 >= 1 {
                    to.0 - 1
                } else {
                    0
                }),
                ihi == (if to.0 + 2 <= 7 {
                    to.0 + 2
                } else {
                    7
                }),
                jlo == (if to.1 >= 1 {
                    to.1 - 1
                } else {
                    0
                }),
                jhi == (if to.1 + 2 <= 7 {
                    to.1 + 2
                } else {
                    7
                }),
                self.tiles@.len() == 49,
                self.blocked_spec() == old(self).blocked_spec(),
                forall|a: int, b: int|
                    0 <= a < 7 && 0 <= b < 7 && (a < i || !(ilo <= a < ihi && jlo <= b < jhi))
                        ==> #[trigger] self.tiles@[a * 7 + b] == target[a * 7 + b],
                forall|a: int, b: int|
                    0 <= a < 7 && 0 <= b < 7 && !(a < i || !(ilo <= a < ihi && jlo <= b < jhi))
                        ==> #[trigger] self.tiles@[a * 7 + b] == mid_tiles(
                        orig@.tiles@,
                        mv,
                        stone,
                    )[a * 7 + b],
            decreases ihi - i,
        {
            let mut j: usize = jlo;
            while j < jhi
                invariant
                    self.wf(),
                    orig@.wf(),
                    to == (mv.to.0 as usize, mv.to.1 as usize),
                    mv.from.0 < 7 && mv.from.1 < 7 && mv.to.0 < 7 && mv.to.1 < 7,
                    stone == (if chebyshev(mv.from, mv.to) > 1 {
                        orig@.tile_at(mv.from.0 as int, mv.from.1 as int).stone_spec()->0
                    } else {
                        stone_of_player(player as int)
                    }),
                    other == stone_of_player(player as int + 1),
                    target == orig@.played_tiles_spec(mv, player),
                    ilo <= i < ihi <= 7,
                    jlo <= j <= jhi <= 7,
                    ilo == (if to.0 >= 1 {
                        to.0 - 1
                    } else {
                        0
                    }),
                    ihi == (if to.0 + 2 <= 7 {
                        to.0 + 2
                    } else {
                        7
                    }),
                    jlo == (if to.1 >= 1 {
                        to.1 - 1
                    } else {
                        0
                    }),
                    jhi == (if to.1 + 2 <= 7 {
                        to.1 + 2
                    } else {
                        7
                    }),
                    self.tiles@.len() == 49,
                    self.blocked_spec() == old(self).blocked_spec(),
                    forall|a: int, b: int|
                        0 <= a < 7 && 0 <= b < 7 && (a < i || (a == i && b < j) || !(ilo <= a < ihi
                            && jlo <= b < jhi)) ==> #[trigger] self.tiles@[a * 7 + b] == target[a
                            * 7 + b],
                    forall|a: int, b: int|
                        0 <= a < 7 && 0 <= b < 7 && !(a < i || (a == i && b < j) || !(ilo <= a
                            < ihi && jlo <= b < jhi)) ==> #[trigger] self.tiles@[a * 7 + b]
                            == mid_tiles(orig@.tiles@, mv, stone)[a * 7 + b],
                decreases jhi - j,
            {
                let idx = i * 7 + j;
                proof {
                    assert((i as int) * 7 + j as int == idx as int);
                    assert(self.tiles@[idx as int] == mid_tiles(orig@.tiles@, mv, stone)[
                        idx as int
                    ]);
                    assert(chebyshev(mv.to, (i as u8, j as u8)) <= 1);
                    lemma_mid_vs_target(orig@, mv, player, stone, i as int, j as int);
                }
                if !(i == to.0 && j == to.1) {
                    if self.tiles[idx].get_stone() == Some(other) {
                        self_set_stone(&mut self.tiles, idx, Stone::from_player(player));
                        proof {
                            assert(self.tiles@[idx as int] == target[idx as int]);
                        }
                    } else {
                        proof {
                            assert(self.tiles@[idx as int] == target[idx as int]);
                        }
                    }
                } else {
                    proof {
                        assert(self.tiles@[idx as int] == target[idx as int]);
                    }
                }
                j = j + 1;
            }
            proof {
                assert forall|a: int, b: int|
                    0 <= a < 7 && 0 <= b < 7 && (a < i + 1 || !(ilo <= a < ihi && jlo <= b < jhi))
                    implies #[trigger] self.tiles@[a * 7 + b] == target[a * 7 + b] by {
                    if a == i && ilo <= a < ihi && jlo <= b < jhi {
                        assert(jlo <= b && (b as int) < jhi);
                    }
                }
            }
            i = i + 1;
        }
        proof {
            assert forall|a: int, b: int| 0 <= a < 7 && 0 <= b < 7 implies #[trigger] self.tiles@[a
                * 7 + b] == target[a * 7 + b] by {
                if ilo <= a < ihi && jlo <= b < jhi {
                    assert(a < ihi);
                }
            }
            lemma_grid_eq(self.tiles@, target);
        }
    }
}

/// Two 49-tile grids that agree on every grid place are equal.
proof fn lemma_grid_eq(t1: Seq<Tile>, t2: Seq<Tile>)
    requires
        t1.len() == 49,
        t2.len() == 49,
        forall|a: int, b: int|
            0 <= a < 7 && 0 <= b < 7 ==> #[trigger] t1[a * 7 + b] == t2[a * 7 + b],
    ensures
        t1 =~= t2,
{
    assert forall|idx: int| 0 <= idx < 49 implies t1[idx] == t2[idx] by {
        let a = idx / 7;
        let b = idx % 7;
        assert(idx == a * 7 + b);
        assert(t1[a * 7 + b] == t2[a * 7 + b]);
    }
}

/// The tile grid right after the stone has landed, before the capture
/// flood: `to` holds the moved stone and, on a jump, `from` is empty.
pub open spec fn mid_tiles(tiles: Seq<Tile>, mv: Move, stone: Stone) -> Seq<Tile> {
    let after_lift = if chebyshev(mv.from, mv.to) > 1 {
        tiles.update(
            mv.from.0 as int * 7 + mv.from.1 as int,
            tiles[mv.from.0 as int * 7 + mv.from.1 as int].with_stone_taken(),
        )
    } else {
        tiles
    };
    after_lift.update(
        mv.to.0 as int * 7 + mv.to.1 as int,
        after_lift[mv.to.0 as int * 7 + mv.to.1 as int].with_stone(stone),
    )
}

/// What the flood loop leaves on one square agrees with the final grid the
/// contract names: away from the window nothing changes, the landing square
/// keeps its stone, and a window square flips exactly when it held the
/// opposing colour.
proof fn lemma_mid_vs_target(b: Board, mv: Move, player: usize, stone: Stone, i: int, j: int)
    requires
        b.wf(),
        mv.from.0 < 7 && mv.from.1 < 7 && mv.to.0 < 7 && mv.to.1 < 7,
        0 <= i < 7,
        0 <= j < 7,
        stone == (if chebyshev(mv.from, mv.to) > 1 {
            b.tile_at(mv.from.0 as int, mv.from.1 as int).stone_spec()->0
        } else {
            stone_of_player(player as int)
        }),
    ensures
        ({
            let m = mid_tiles(b.tiles@, mv, stone)[i * 7 + j];
            let t = b.played_tiles_spec(mv, player)[i * 7 + j];
            if i == mv.to.0 as int && j == mv.to.1 as int {
                t == m
            } else if chebyshev(mv.to, (i as u8, j as u8)) > 1 {
                t == m
            } else if m.stone_spec() == Some(stone_of_player(player as int + 1)) {
                t == m.with_stone(stone_of_player(player as int))
            } else {
                t == m
            }
        }),
{
    let idx = i * 7 + j;
    assert(idx / 7 == i && idx % 7 == j) by (nonlinear_arith)
        requires
            0 <= i < 7,
            0 <= j < 7,
            idx == i * 7 + j,
    ;
    assert(mv.to.0 as int * 7 + mv.to.1 as int == idx <==> (mv.to.0 as int == i && mv.to.1 as int
        == j)) by (nonlinear_arith)
        requires
            0 <= i < 7,
            0 <= j < 7,
            idx == i * 7 + j,
            mv.to.0 < 7,
            mv.to.1 < 7,
    ;
    assert(mv.from.0 as int * 7 + mv.from.1 as int == idx <==> (mv.from.0 as int == i
        && mv.from.1 as int == j)) by (nonlinear_arith)
        requires
            0 <= i < 7,
            0 <= j < 7,
            idx == i * 7 + j,
            mv.from.0 < 7,
            mv.from.1 < 7,
    ;
}

/// Puts a stone on the tile at `idx`, keeping the grid well formed.
fn self_set_stone(tiles: &mut Vec<Tile>, idx: usize, stone: Stone)
    requires
        idx < old(tiles)@.len(),
    ensures
        final(tiles)@ =~= old(tiles)@.update(idx as int, old(tiles)@[idx as int].with_stone(stone)),
        final(tiles)@.len() == old(tiles)@.len(),
{
    let mut t = tiles[idx];
    t.set_stone(stone);
    tiles[idx] = t;
    proof {
        assert(tiles@ =~= old(tiles)@.update(
            idx as int,
            old(tiles)@[idx as int].with_stone(stone),
        ));
    }
}

/// Blocks the tile at `idx`.
fn self_set_blocked(tiles: &mut Vec<Tile>, idx: usize)
    requires
        idx < old(tiles)@.len(),
    ensures
        final(tiles)@ =~= old(tiles)@.update(idx as int, old(tiles)@[idx as int].with_blocked()),
{
    let mut t = tiles[idx];
    t.set_blocked(true);
    tiles[idx] = t;
    proof {
        assert(tiles@ =~= old(tiles)@.update(idx as int, old(tiles)@[idx as int].with_blocked()));
    }
}

/// Lifts the stone off the tile at `idx`.
fn take_stone(tiles: &mut Vec<Tile>, idx: usize) -> (r: Option<Stone>)
    requires
        idx < old(tiles)@.len(),
    ensures
        r == old(tiles)@[idx as int].stone_spec(),
        final(tiles)@ =~= old(tiles)@.update(
            idx as int,
            old(tiles)@[idx as int].with_stone_taken(),
        ),
        final(tiles)@.len() == old(tiles)@.len(),
{
    let mut t = tiles[idx];
    let r = t.pop_stone();
    tiles[idx] = t;
    proof {
        assert(tiles@ =~= old(tiles)@.update(
            idx as int,
            old(tiles)@[idx as int].with_stone_taken(),
        ));
    }
    r
}

} // verus!
