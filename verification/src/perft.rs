//! Perft: the move-tree leaf counter used as a correctness oracle.

use crate::bitboard::{
    bit_indices, card, lemma_clear_lowest, lemma_lowest_bit, lemma_or_and_zero,
    lemma_spread_union, BitBoard,
};
use crate::moves::{jumps_of_src, jumps_of_srcs, lemma_generated_moves_legal, lemma_moves_nonempty, Move};
use crate::position::Position;
use vstd::prelude::*;

verus! {

/// The number of leaves of the legal move tree at the given depth: one at
/// depth zero, none below a terminal position, and otherwise the sum over
/// the legal moves (a forced pass counts as one edge).
pub open spec fn spec_perft(p: Position, depth: nat) -> nat
    decreases depth, 0int,
{
    if depth == 0 {
        1
    } else if p.game_over_spec() {
        0
    } else {
        spec_perft_sum(p, p.moves_seq(), (depth - 1) as nat)
    }
}

/// Sum of the subtree leaf counts of the given moves of `p`.
pub open spec fn spec_perft_sum(p: Position, moves: Seq<Move>, depth: nat) -> nat
    decreases depth, moves.len() + 1,
{
    if moves.len() == 0 {
        0
    } else {
        spec_perft(p.move_applied(moves[0]), depth) + spec_perft_sum(p, moves.drop_first(), depth)
    }
}

/// At depth zero below the moves, the sum just counts the moves.
proof fn lemma_perft_sum_len(p: Position, moves: Seq<Move>)
    ensures
        spec_perft_sum(p, moves, 0) == moves.len(),
    decreases moves.len(),
{
    if moves.len() > 0 {
        lemma_perft_sum_len(p, moves.drop_first());
        assert(spec_perft(p.move_applied(moves[0]), 0) == 1);
    }
}

/// Splitting the sum at the front element.
proof fn lemma_perft_sum_skip(p: Position, moves: Seq<Move>, depth: nat, i: int)
    requires
        0 <= i < moves.len(),
    ensures
        spec_perft_sum(p, moves.skip(i), depth) == spec_perft(p.move_applied(moves[i]), depth)
            + spec_perft_sum(p, moves.skip(i + 1), depth),
{
    assert(moves.skip(i)[0] == moves[i]);
    assert(moves.skip(i).drop_first() =~= moves.skip(i + 1));
    assert(moves.skip(i).len() > 0);
}

/// With no jump target anywhere, the jump list is empty.
proof fn lemma_jumps_empty(m: u64, e: u64)
    requires
        crate::bitboard::doubles_spec(m) & e == 0,
    ensures
        jumps_of_srcs(bit_indices(m), e).len() == 0,
    decreases m,
{
    if m == 0 {
        assert(bit_indices(0u64).len() == 0);
    } else {
        lemma_lowest_bit(m);
        let t = bit_indices(m)[0];
        let rest = m & ((m - 1) as u64);
        lemma_clear_lowest(m);
        lemma_spread_union(rest, 1u64 << (t as u64));
        lemma_or_and_zero(
            crate::bitboard::doubles_spec(rest),
            crate::bitboard::doubles_spec(1u64 << (t as u64)),
            e,
        );
        assert(bit_indices(m).drop_first() =~= bit_indices(rest));
        lemma_jumps_empty(rest, e);
        assert(bit_indices(crate::bitboard::doubles_spec(1u64 << (t as u64)) & e).len() == 0);
    }
}

impl Position {
    /// Counts the leaves of the legal move tree `depth` plies down.  A pure
    /// oracle: the position itself is never changed.
    pub fn perft(&self, depth: i16) -> (r: u64)
        requires
            self.wf(),
            depth >= 0,
            spec_perft(*self, depth as nat) <= u64::MAX,
        ensures
            r as nat == spec_perft(*self, depth as nat),
        decreases depth,
    {
        if depth == 0 {
            return 1;
        }
        if self.game_over() {
            return 0;
        }
        if depth == 1 {
            proof {
                lemma_perft_sum_len(*self, self.moves_seq());
                lemma_moves_nonempty(*self);
            }
            let s2m = self.colored_squares(self.turn);
            let empty = self.empty_squares();

            let mut num: u64 = (s2m.singles() & empty).popcnt() as u64;
            let ghost g = crate::bitboard::singles_spec(s2m.0) & empty.0;
            let ghost m0 = s2m.0;
            let ghost total = card(g) + jumps_of_srcs(bit_indices(m0), empty.0).len();
            proof {
                if self.must_pass_spec() {
                    lemma_or_and_zero(
                        crate::bitboard::singles_spec(m0),
                        crate::bitboard::doubles_spec(m0),
                        empty.0,
                    );
                    lemma_jumps_empty(m0, empty.0);
                    assert(bit_indices(0u64).len() == 0);
                } else {
                    assert(total == self.moves_seq().len());
                }
            }
            let mut rest_m: u64 = s2m.0;
            while rest_m != 0
                invariant
                    empty.0 == self.empty_spec(),
                    num + jumps_of_srcs(bit_indices(rest_m), empty.0).len() == total,
                    total <= u64::MAX,
                decreases rest_m,
            {
                proof {
                    lemma_lowest_bit(rest_m);
                    lemma_clear_lowest(rest_m);
                    assert(bit_indices(rest_m).drop_first() =~= bit_indices(
                        rest_m & ((rest_m - 1) as u64),
                    ));
                }
                let src = rest_m.trailing_zeros() as u8;
                let doubles = BitBoard::from_index(src).doubles() & empty;
                proof {
                    assert(jumps_of_src(src, empty.0).len() == card(doubles.0));
                }
                num = num + doubles.popcnt() as u64;
                rest_m = rest_m & (rest_m - 1);
            }
            proof {
                assert(bit_indices(0u64).len() == 0);
                assert(num == total);
            }
            if num == 0 {
                return 1;
            }
            return num;
        }
        let moves = self.generate_moves();
        proof {
            lemma_generated_moves_legal(*self);
        }
        let mut nodes: u64 = 0;
        let mut i: usize = 0;
        let ghost dm1 = (depth - 1) as nat;
        proof {
            assert(self.moves_seq().skip(0) =~= self.moves_seq());
        }
        while i < moves.len()
            invariant
                self.wf(),
                !self.game_over_spec(),
                depth >= 1,
                dm1 == (depth - 1) as nat,
                moves@ == self.moves_seq(),
                i <= moves@.len(),
                nodes + spec_perft_sum(*self, moves@.skip(i as int), dm1) == spec_perft(
                    *self,
                    depth as nat,
                ),
                spec_perft(*self, depth as nat) <= u64::MAX,
            decreases moves@.len() - i,
        {
            proof {
                lemma_perft_sum_skip(*self, moves@, dm1, i as int);
                lemma_generated_moves_legal(*self);
                assert(self.moves_seq()[i as int] == moves@[i as int]);
                assert(self.legal_move_spec(moves@[i as int]));
            }
            let mv = moves[i];
            let mut new_pos = *self;
            new_pos.make_move(mv);
            let child = new_pos.perft(depth - 1);
            nodes = nodes + child;
            i = i + 1;
        }
        proof {
            assert(moves@.skip(moves@.len() as int) =~= Seq::<Move>::empty());
        }
        nodes
    }
}

} // verus!
