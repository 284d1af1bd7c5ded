//! Moves, legal move generation and move application.
//!
//! A move is a pair of square indices.  A growth has `from == to`; a jump
//! moves a stone to a square at Chebyshev distance 2.  Two sentinels are
//! reserved: the null move, never applied, and the pass move, legal exactly
//! when the side to move has no growth or jump but the game is not over.

use crate::bitboard::{
    bit, bit_indices, card, doubles_spec, lemma_and_bit, lemma_bit_indices_bits,
    lemma_card_disjoint_union, lemma_card_le_64, lemma_card_set_bit, lemma_clear_lowest,
    lemma_comm, lemma_lowest_bit, lemma_zero_identities,
    lemma_or_and_zero, lemma_spread_of_empty, lemma_spread_union, lemma_xor_clear_bit,
    lemma_xor_set_bit, reach_spec, singles_spec, BitBoard, FULL,
};
use crate::position::{other_side, Position, Side};
use vstd::prelude::*;

verus! {

/// A move from one square to another; `from == to` places a new stone.
#[derive(Debug, PartialEq, Eq, Structural, Copy, Clone)]
pub struct Move {
    pub from: u8,
    pub to: u8,
}

/// The null move: a sentinel for "no move", never given to `make_move`.
pub open spec fn null_spec() -> Move {
    Move { from: 49, to: 50 }
}

/// The pass move.
pub open spec fn pass_spec() -> Move {
    Move { from: 50, to: 51 }
}

impl Move {
    /// A move between the two given squares.
    pub fn new(from: u8, to: u8) -> (r: Move)
        ensures
            r == (Move { from, to }),
    {
        Move { from, to }
    }

    /// The null sentinel.
    pub fn null() -> (r: Move)
        ensures
            r == null_spec(),
    {
        Move { from: 49, to: 50 }
    }

    /// The pass sentinel.
    pub fn pass() -> (r: Move)
        ensures
            r == pass_spec(),
    {
        Move { from: 50, to: 51 }
    }

    /// Writes the move as text: file letter and rank digit of the square
    /// for a growth, both squares for a jump, `0000` for a pass.
    pub fn to_text(&self) -> (r: String)
        requires
            *self == pass_spec() || *self == null_spec() || (self.from < 49 && self.to < 49),
        ensures
            r@ == move_text_spec(*self),
    {
        let mut out: Vec<char> = Vec::new();
        if (self.from == 50 && self.to == 51) || (self.from == 49 && self.to == 50) {
            out.push('0');
            out.push('0');
            out.push('0');
            out.push('0');
        } else {
            out.push(Move::square_file(self.from));
            out.push(Move::square_rank(self.from));
            if self.from != self.to {
                out.push(Move::square_file(self.to));
                out.push(Move::square_rank(self.to));
            }
        }
        proof {
            assert(out@ =~= move_text_spec(*self));
        }
        crate::fen::string_from_chars(&out)
    }

    /// The file letter of a square.
    fn square_file(sq: u8) -> (r: char)
        ensures
            r == file_char(sq),
    {
        match sq % 7 {
            0 => 'a',
            1 => 'b',
            2 => 'c',
            3 => 'd',
            4 => 'e',
            5 => 'f',
            _ => 'g',
        }
    }

    /// The rank digit of a square.
    fn square_rank(sq: u8) -> (r: char)
        requires
            sq < 49,
        ensures
            r == rank_char(sq),
    {
        match sq / 7 {
            0 => '1',
            1 => '2',
            2 => '3',
            3 => '4',
            4 => '5',
            5 => '6',
            _ => '7',
        }
    }

    /// True for growths, which stay on one square.
    pub fn is_single(&self) -> (r: bool)
        ensures
            r == (self.from == self.to),
    {
        self.from == self.to
    }
}

/// The file letter of a square: `a` on the left through `g` on the right.
pub open spec fn file_char(sq: u8) -> char {
    let f = sq % 7;
    if f == 0 {
        'a'
    } else if f == 1 {
        'b'
    } else if f == 2 {
        'c'
    } else if f == 3 {
        'd'
    } else if f == 4 {
        'e'
    } else if f == 5 {
        'f'
    } else {
        'g'
    }
}

/// The rank digit of a square: `1` at the bottom through `7` at the top.
pub open spec fn rank_char(sq: u8) -> char {
    let r = sq / 7;
    if r == 0 {
        '1'
    } else if r == 1 {
        '2'
    } else if r == 2 {
        '3'
    } else if r == 3 {
        '4'
    } else if r == 4 {
        '5'
    } else if r == 5 {
        '6'
    } else {
        '7'
    }
}

/// The text of a move: two characters for a growth, four for a jump, and
/// the literal `0000` for a pass (or for the null move).
pub open spec fn move_text_spec(mv: Move) -> Seq<char> {
    if mv == pass_spec() || mv == null_spec() {
        seq!['0', '0', '0', '0']
    } else if mv.from == mv.to {
        seq![file_char(mv.from), rank_char(mv.from)]
    } else {
        seq![file_char(mv.from), rank_char(mv.from), file_char(mv.to), rank_char(mv.to)]
    }
}

/// The growth moves for the given growth targets, in bitboard order.
pub open spec fn growth_moves(targets: u64) -> Seq<Move> {
    bit_indices(targets).map_values(|sq: u8| Move { from: sq, to: sq })
}

/// The jumps out of one source square into the empty squares `e`, in
/// bitboard order of the destination.
pub open spec fn jumps_of_src(src: u8, e: u64) -> Seq<Move> {
    bit_indices(doubles_spec(1u64 << (src as u64)) & e).map_values(|dst: u8| Move { from: src, to: dst })
}

/// The jumps of all the given source squares, sources in the given order.
pub open spec fn jumps_of_srcs(srcs: Seq<u8>, e: u64) -> Seq<Move>
    decreases srcs.len(),
{
    if srcs.len() == 0 {
        Seq::empty()
    } else {
        jumps_of_src(srcs[0], e) + jumps_of_srcs(srcs.drop_first(), e)
    }
}

impl Position {
    /// The side to move has no growth or jump, yet the game is not over.
    pub open spec fn must_pass_spec(self) -> bool {
        !self.game_over_spec() && reach_spec(self.mover_spec()) & self.empty_spec() == 0
    }

    /// The legal moves of a non-terminal position: a lone pass when the
    /// mover has no reach, otherwise every growth in bitboard order
    /// followed by every jump, sources outermost.
    pub open spec fn moves_seq(self) -> Seq<Move> {
        if self.must_pass_spec() {
            seq![pass_spec()]
        } else {
            growth_moves(singles_spec(self.mover_spec()) & self.empty_spec()) + jumps_of_srcs(
                bit_indices(self.mover_spec()),
                self.empty_spec(),
            )
        }
    }

    /// A move that `make_move` accepts on this position: the pass sentinel,
    /// a growth onto a reachable empty square, or a jump from an own stone
    /// to an empty square at distance 2.
    pub open spec fn legal_move_spec(self, mv: Move) -> bool {
        ||| mv == pass_spec()
        ||| (mv.from == mv.to && bit(singles_spec(self.mover_spec()), mv.to) && bit(
            self.empty_spec(),
            mv.to,
        ))
        ||| (mv.from != mv.to && bit(self.mover_spec(), mv.from) && bit(
            doubles_spec(1u64 << (mv.from as u64)),
            mv.to,
        ) && bit(self.empty_spec(), mv.to))
    }

    /// The position after a move: the turn flips, the ply clock ticks, the
    /// full-move counter ticks when White comes to move (saturating at its
    /// top), and a non-pass move lands a stone on `to` — removing it from
    /// `from` if the move is a jump — and converts every opposing stone
    /// adjacent to `to`.
    pub open spec fn move_applied(self, mv: Move) -> Position {
        let turn2 = other_side(self.turn);
        let half2 = (self.half_moves + 1) as u8;
        let full2 = if turn2 == Side::White && self.full_moves < 255 {
            (self.full_moves + 1) as u8
        } else {
            self.full_moves
        };
        if mv == pass_spec() {
            Position { turn: turn2, half_moves: half2, full_moves: full2, ..self }
        } else {
            let mover1 = self.mover_spec() ^ ((1u64 << (mv.from as u64)) | (1u64 << (
            mv.to as u64)));
            let captured = singles_spec(1u64 << (mv.to as u64)) & self.opponent_spec();
            let mover2 = mover1 | captured;
            let opp2 = self.opponent_spec() ^ captured;
            match self.turn {
                Side::Black => Position {
                    black: BitBoard(mover2),
                    white: BitBoard(opp2),
                    turn: turn2,
                    half_moves: half2,
                    full_moves: full2,
                    ..self
                },
                Side::White => Position {
                    black: BitBoard(opp2),
                    white: BitBoard(mover2),
                    turn: turn2,
                    half_moves: half2,
                    full_moves: full2,
                    ..self
                },
            }
        }
    }

    /// True exactly when the only legal move is a pass.
    pub fn must_pass(&self) -> (r: bool)
        ensures
            r == self.must_pass_spec(),
    {
        if self.game_over() {
            return false;
        }
        let s2m = self.colored_squares(self.turn);
        let empty = self.empty_squares();
        (s2m.reach() & empty).is_empty()
    }

    /// Generates the legal moves of a non-terminal position, growths before
    /// jumps, each group in bitboard order.
    pub fn generate_moves(&self) -> (r: Vec<Move>)
        requires
            self.wf(),
            !self.game_over_spec(),
        ensures
            r@ == self.moves_seq(),
            r@.len() >= 1,
    {
        proof {
            lemma_moves_nonempty(*self);
        }
        let mut moves: Vec<Move> = Vec::new();
        if self.must_pass() {
            moves.push(Move::pass());
            return moves;
        }
        let s2m = self.colored_squares(self.turn);
        let empty = self.empty_squares();

        let singles = s2m.singles() & empty;
        let ghost g0 = singles.0;
        let mut rest: u64 = singles.0;
        while rest != 0
            invariant
                moves@ + growth_moves(rest) == growth_moves(g0),
            decreases rest,
        {
            proof {
                lemma_lowest_bit(rest);
                lemma_clear_lowest(rest);
                assert(growth_moves(rest) =~= seq![
                    Move { from: bit_indices(rest)[0], to: bit_indices(rest)[0] },
                ] + growth_moves(rest & ((rest - 1) as u64)));
            }
            let sq = rest.trailing_zeros() as u8;
            moves.push(Move::new(sq, sq));
            rest = rest & (rest - 1);
        }
        proof {
            assert(growth_moves(0) =~= Seq::<Move>::empty());
            assert(moves@ =~= growth_moves(g0));
        }

        let ghost m0 = s2m.0;
        let ghost all = growth_moves(g0) + jumps_of_srcs(bit_indices(m0), empty.0);
        let mut rest_m: u64 = s2m.0;
        while rest_m != 0
            invariant
                self.wf(),
                empty.0 == self.empty_spec(),
                moves@ + jumps_of_srcs(bit_indices(rest_m), empty.0) == all,
            decreases rest_m,
        {
            proof {
                lemma_lowest_bit(rest_m);
                lemma_clear_lowest(rest_m);
            }
            let src = rest_m.trailing_zeros() as u8;
            let doubles = BitBoard::from_index(src).doubles() & empty;
            let ghost d0 = doubles.0;
            let ghost before = moves@;
            let mut rest_d: u64 = doubles.0;
            while rest_d != 0
                invariant
                    moves@ + jumps_of_src_targets(src, rest_d) == before + jumps_of_src_targets(
                        src,
                        d0,
                    ),
                decreases rest_d,
            {
                proof {
                    lemma_lowest_bit(rest_d);
                    lemma_clear_lowest(rest_d);
                    assert(jumps_of_src_targets(src, rest_d) =~= seq![
                        Move { from: src, to: bit_indices(rest_d)[0] },
                    ] + jumps_of_src_targets(src, rest_d & ((rest_d - 1) as u64)));
                }
                let dst = rest_d.trailing_zeros() as u8;
                moves.push(Move::new(src, dst));
                rest_d = rest_d & (rest_d - 1);
            }
            proof {
                assert(jumps_of_src_targets(src, 0) =~= Seq::<Move>::empty());
                assert(jumps_of_src_targets(src, d0) =~= jumps_of_src(src, empty.0));
                assert(moves@ =~= before + jumps_of_src(src, empty.0));
                assert(bit_indices(rest_m).drop_first() =~= bit_indices(
                    rest_m & ((rest_m - 1) as u64),
                ));
            }
            rest_m = rest_m & (rest_m - 1);
        }
        proof {
            assert(jumps_of_srcs(bit_indices(0u64), empty.0) =~= Seq::<Move>::empty());
            assert(moves@ =~= all);
        }
        moves
    }

    /// Applies a legal move in place; the result is exactly
    /// `move_applied`.
    pub fn make_move(&mut self, mv: Move)
        requires
            old(self).wf(),
            old(self).half_moves < 100,
            old(self).legal_move_spec(mv),
        ensures
            *final(self) == old(self).move_applied(mv),
            final(self).wf(),
    {
        proof {
            lemma_move_applied_wf(*self, mv);
        }
        let mover_side = self.turn;
        self.turn = core::ops::Not::not(self.turn);
        self.half_moves = self.half_moves + 1;
        if self.turn == Side::White && self.full_moves < 255 {
            self.full_moves = self.full_moves + 1;
        }
        if mv == Move::pass() {
            return ;
        }
        let from = BitBoard::from_index(mv.from);
        let to = BitBoard::from_index(mv.to);
        let pair = self.colored_squares_mut(mover_side);
        let mut s2m = pair.0;
        let mut opponent = pair.1;

        s2m = s2m ^ (from | to);

        let captured = to.singles() & opponent;
        opponent = opponent ^ captured;
        s2m = s2m | captured;
        self.set_colored_squares(mover_side, s2m, opponent);
        proof {
            assert(*self == old(self).move_applied(mv));
        }
    }
}

/// The jumps from `src` into the target set `targets`, in bitboard order.
pub open spec fn jumps_of_src_targets(src: u8, targets: u64) -> Seq<Move> {
    bit_indices(targets).map_values(|dst: u8| Move { from: src, to: dst })
}

/// The move list is small: at most 64 growths and 64 jumps per source.
pub proof fn lemma_moves_len_bound(p: Position)
    ensures
        p.moves_seq().len() <= 4160,
{
    if !p.must_pass_spec() {
        let m = p.mover_spec();
        let e = p.empty_spec();
        lemma_card_le_64(singles_spec(m) & e);
        lemma_card_le_64(m);
        lemma_jumps_len_bound(bit_indices(m), e);
        assert(growth_moves(singles_spec(m) & e).len() == card(singles_spec(m) & e));
        assert(bit_indices(m).len() == card(m));
    }
}

/// Each source square contributes at most 64 jumps.
proof fn lemma_jumps_len_bound(srcs: Seq<u8>, e: u64)
    ensures
        jumps_of_srcs(srcs, e).len() <= 64 * srcs.len(),
    decreases srcs.len(),
{
    if srcs.len() > 0 {
        lemma_jumps_len_bound(srcs.drop_first(), e);
        lemma_card_le_64(doubles_spec(1u64 << (srcs[0] as u64)) & e);
        assert(jumps_of_src(srcs[0], e).len() <= 64);
    }
}

/// A non-terminal position always has at least one legal move.
pub proof fn lemma_moves_nonempty(p: Position)
    requires
        p.wf(),
        !p.game_over_spec(),
    ensures
        p.moves_seq().len() >= 1,
{
    if !p.must_pass_spec() {
        let m = p.mover_spec();
        let e = p.empty_spec();
        lemma_or_and_zero(singles_spec(m), doubles_spec(m), e);
        if singles_spec(m) & e != 0 {
            assert(growth_moves(singles_spec(m) & e).len() >= 1);
        } else {
            lemma_jumps_nonempty(m, e);
        }
    }
}

/// If some source can jump into `e`, the jump list is non-empty.
proof fn lemma_jumps_nonempty(m: u64, e: u64)
    requires
        doubles_spec(m) & e != 0,
    ensures
        jumps_of_srcs(bit_indices(m), e).len() >= 1,
    decreases m,
{
    if m == 0 {
        lemma_spread_of_empty();
        lemma_zero_identities(e);
    } else {
        lemma_lowest_bit(m);
        let t = bit_indices(m)[0];
        let rest = m & ((m - 1) as u64);
        lemma_clear_lowest(m);
        lemma_spread_union(rest, 1u64 << (t as u64));
        assert(doubles_spec(rest | (1u64 << (t as u64))) & e != 0 ==> (doubles_spec(rest)
            | doubles_spec(1u64 << (t as u64))) & e != 0);
        lemma_or_and_zero(doubles_spec(rest), doubles_spec(1u64 << (t as u64)), e);
        assert(bit_indices(m).drop_first() =~= bit_indices(rest));
        assert(jumps_of_srcs(bit_indices(m), e) == jumps_of_src(t, e) + jumps_of_srcs(
            bit_indices(rest),
            e,
        ));
        if doubles_spec(1u64 << (t as u64)) & e != 0 {
            let d = doubles_spec(1u64 << (t as u64)) & e;
            lemma_lowest_bit(d);
            assert(jumps_of_src(t, e).len() == bit_indices(d).len());
        } else {
            lemma_jumps_nonempty(rest, e);
        }
    }
}

/// Every generated move is legal: the pass only when the mover is stuck,
/// a growth onto an empty square next to an own stone, or a jump from an
/// own stone to an empty square at Chebyshev distance 2.
pub proof fn lemma_generated_moves_legal(p: Position)
    requires
        p.wf(),
        !p.game_over_spec(),
    ensures
        forall|k: int|
            0 <= k < p.moves_seq().len() ==> p.legal_move_spec(#[trigger] p.moves_seq()[k]),
{
    if !p.must_pass_spec() {
        let m = p.mover_spec();
        let e = p.empty_spec();
        let g = singles_spec(m) & e;
        lemma_bit_indices_bits(g);
        lemma_bit_indices_bits(m);
        assert forall|k: int| 0 <= k < growth_moves(g).len() implies p.legal_move_spec(
            #[trigger] growth_moves(g)[k],
        ) by {
            let t = bit_indices(g)[k];
            assert(bit_indices(g).contains(t));
            lemma_and_bit(singles_spec(m), e, t);
        }
        assert forall|i: int| 0 <= i < bit_indices(m).len() implies bit(
            p.mover_spec(),
            #[trigger] bit_indices(m)[i],
        ) by {
            assert(bit_indices(m).contains(bit_indices(m)[i]));
        }
        lemma_jumps_legal(p, bit_indices(m));
    }
}

/// Jump lists built from own source squares hold only legal jumps.
proof fn lemma_jumps_legal(p: Position, srcs: Seq<u8>)
    requires
        forall|i: int| 0 <= i < srcs.len() ==> bit(p.mover_spec(), #[trigger] srcs[i]),
    ensures
        forall|k: int|
            0 <= k < jumps_of_srcs(srcs, p.empty_spec()).len() ==> p.legal_move_spec(
                #[trigger] jumps_of_srcs(srcs, p.empty_spec())[k],
            ),
    decreases srcs.len(),
{
    let e = p.empty_spec();
    if srcs.len() > 0 {
        let src = srcs[0];
        let d = doubles_spec(1u64 << (src as u64)) & e;
        lemma_bit_indices_bits(d);
        lemma_doubles_not_self(src);
        assert forall|k: int| 0 <= k < jumps_of_src(src, e).len() implies p.legal_move_spec(
            #[trigger] jumps_of_src(src, e)[k],
        ) by {
            let t = bit_indices(d)[k];
            assert(bit_indices(d).contains(t));
            lemma_and_bit(doubles_spec(1u64 << (src as u64)), e, t);
        }
        assert(srcs.drop_first().len() == srcs.len() - 1);
        lemma_jumps_legal(p, srcs.drop_first());
        assert(jumps_of_srcs(srcs, e) == jumps_of_src(src, e) + jumps_of_srcs(
            srcs.drop_first(),
            e,
        ));
    }
}

/// A square is never at Chebyshev distance 2 from itself.
proof fn lemma_doubles_not_self(s: u8)
    by (bit_vector)
    requires
        s < 64,
    ensures
        !bit(doubles_spec(1u64 << (s as u64)), s),
{
}

/// Pointwise reading of a capture flood: the opponent keeps exactly the
/// stones not adjacent to the landing square, whatever `t`.
proof fn lemma_capture_bit(o: u64, s: u64, t: u8)
    by (bit_vector)
    ensures
        bit(o ^ (s & o), t) <==> (bit(o, t) && !bit(s, t)),
{
}

/// Facts about the moved stone's bits needed for the counting laws.
proof fn lemma_move_bits(m: u64, o: u64, g: u64, f: u64, t: u64)
    by (bit_vector)
    requires
        m & !FULL == 0,
        m & o == 0,
        m & g == 0,
        o & g == 0,
        t < 64,
        (((!(m | o | g)) & FULL) >> t) & 1 == 1,
    ensures
        (m >> t) & 1 == 0,
        ((singles_spec(1u64 << t) & o) >> t) & 1 == 0,
        (singles_spec(1u64 << t) & o) & (m | (1u64 << t)) == 0,
        f == t ==> m ^ ((1u64 << f) | (1u64 << t)) == m | (1u64 << t),
        f != t && f < 64 ==> m ^ ((1u64 << f) | (1u64 << t)) == ((m ^ (1u64 << f)) ^ (1u64 << t)),
        f != t && f < 64 && (m >> f) & 1 == 1 ==> ((m ^ (1u64 << f)) >> t) & 1 == 0 && (singles_spec(
            1u64 << t,
        ) & o) & ((m ^ ((1u64 << f) | (1u64 << t)))) == 0 && (singles_spec(1u64 << t) & o) & ((m ^ (
        1u64 << f)) | (1u64 << t)) == 0,
{
}

/// A growth adds exactly one stone to the mover plus every converted
/// opposing stone, and the opponent keeps exactly its stones not adjacent
/// to the landing square.
pub proof fn lemma_growth_effect(p: Position, mv: Move)
    requires
        p.wf(),
        p.half_moves < 100,
        p.legal_move_spec(mv),
        mv != pass_spec(),
        mv.from == mv.to,
    ensures
        card(p.move_applied(mv).colored_spec(p.turn)) == card(p.mover_spec()) + 1 + card(
            singles_spec(1u64 << (mv.to as u64)) & p.opponent_spec(),
        ),
        forall|t: u8|
            #[trigger] bit(p.move_applied(mv).colored_spec(other_side(p.turn)), t) <==> (bit(
                p.opponent_spec(),
                t,
            ) && !bit(singles_spec(1u64 << (mv.to as u64)), t)),
{
    let m = p.mover_spec();
    let o = p.opponent_spec();
    let t = mv.to;
    let cap = singles_spec(1u64 << (t as u64)) & o;
    lemma_mover_opponent(p);
    lemma_move_bits(m, o, p.gaps.0, mv.from as u64, t as u64);
    lemma_card_set_bit(m, t);
    lemma_xor_set_bit(m, t);
    lemma_comm(m | (1u64 << (t as u64)), cap);
    lemma_card_disjoint_union(m | (1u64 << (t as u64)), cap);
    assert forall|u: u8| #[trigger] bit(o ^ cap, u) <==> (bit(o, u) && !bit(
        singles_spec(1u64 << (t as u64)),
        u,
    )) by {
        lemma_capture_bit(o, singles_spec(1u64 << (t as u64)), u);
    }
    assert(p.move_applied(mv).colored_spec(p.turn) == (m | (1u64 << (t as u64))) | cap);
    assert(p.move_applied(mv).colored_spec(other_side(p.turn)) == o ^ cap);
}

/// A jump moves one stone: before captures the mover's count is unchanged,
/// and with captures it grows by exactly the number of converted stones.
pub proof fn lemma_jump_effect(p: Position, mv: Move)
    requires
        p.wf(),
        p.half_moves < 100,
        p.legal_move_spec(mv),
        mv != pass_spec(),
        mv.from != mv.to,
    ensures
        card(p.mover_spec() ^ ((1u64 << (mv.from as u64)) | (1u64 << (mv.to as u64)))) == card(
            p.mover_spec(),
        ),
        card(p.move_applied(mv).colored_spec(p.turn)) == card(p.mover_spec()) + card(
            singles_spec(1u64 << (mv.to as u64)) & p.opponent_spec(),
        ),
{
    let m = p.mover_spec();
    let o = p.opponent_spec();
    let f = mv.from;
    let t = mv.to;
    let cap = singles_spec(1u64 << (t as u64)) & o;
    lemma_mover_opponent(p);
    lemma_move_bits(m, o, p.gaps.0, f as u64, t as u64);
    let m1 = m ^ (1u64 << (f as u64));
    lemma_xor_clear_bit(m, f);
    lemma_card_set_bit(m1, f);
    lemma_card_set_bit(m1, t);
    lemma_xor_set_bit(m1, t);
    let m2 = m1 | (1u64 << (t as u64));
    assert(m2 == m ^ ((1u64 << (f as u64)) | (1u64 << (t as u64))));
    lemma_comm(m2, cap);
    lemma_card_disjoint_union(m2, cap);
    assert(p.move_applied(mv).colored_spec(p.turn) == m2 | cap);
}

/// The mover's and opponent's boards are the two stone boards and inherit
/// the invariant's disjointness facts.
proof fn lemma_mover_opponent(p: Position)
    requires
        p.wf(),
    ensures
        p.mover_spec() & !FULL == 0,
        p.opponent_spec() & !FULL == 0,
        p.mover_spec() & p.opponent_spec() == 0,
        p.mover_spec() & p.gaps.0 == 0,
        p.opponent_spec() & p.gaps.0 == 0,
        p.empty_spec() == (!(p.mover_spec() | p.opponent_spec() | p.gaps.0)) & FULL,
{
    let b = p.black.0;
    let w = p.white.0;
    let g = p.gaps.0;
    lemma_comm(b, w);
    assert(b | w | g == (w | b) | g);
}

/// Applying a legal move to a well-formed position with a running clock
/// yields a well-formed position.
proof fn lemma_move_applied_wf(p: Position, mv: Move)
    requires
        p.wf(),
        p.half_moves < 100,
        p.legal_move_spec(mv),
    ensures
        p.move_applied(mv).wf(),
{
    if mv != pass_spec() {
        let b = p.black.0;
        let w = p.white.0;
        let g = p.gaps.0;
        let f = mv.from as u64;
        let t = mv.to as u64;
        lemma_comm(b, w);
        assert((!(b | w | g)) & FULL == (!(w | b | g)) & FULL) by {
            lemma_comm(b, w);
            assert(b | w | g == (w | b) | g);
        }
        match p.turn {
            Side::Black => {
                lemma_move_boards_wf(b, w, g, f, t);
            },
            Side::White => {
                lemma_move_boards_wf(w, b, g, f, t);
            },
        }
    }
}

/// Bit-level well-formedness of the boards after a non-pass move.
proof fn lemma_move_boards_wf(m: u64, o: u64, g: u64, f: u64, t: u64)
    by (bit_vector)
    requires
        m & !FULL == 0,
        o & !FULL == 0,
        g & !FULL == 0,
        m & o == 0,
        m & g == 0,
        o & g == 0,
        t < 64,
        (((!(m | o | g)) & FULL) >> t) & 1 == 1,
        f == t || (f < 64 && (m >> f) & 1 == 1),
    ensures
        ((m ^ ((1u64 << f) | (1u64 << t))) | (singles_spec(1u64 << t) & o)) & !FULL == 0,
        (o ^ (singles_spec(1u64 << t) & o)) & !FULL == 0,
        (((m ^ ((1u64 << f) | (1u64 << t))) | (singles_spec(1u64 << t) & o)) & (o ^ (singles_spec(
            1u64 << t,
        ) & o))) == 0,
        ((o ^ (singles_spec(1u64 << t) & o)) & ((m ^ ((1u64 << f) | (1u64 << t))) | (singles_spec(
            1u64 << t,
        ) & o))) == 0,
        (((m ^ ((1u64 << f) | (1u64 << t))) | (singles_spec(1u64 << t) & o)) & g) == 0,
        ((o ^ (singles_spec(1u64 << t) & o)) & g) == 0,
{
}

} // verus!
