//! 49-bit bitboards for the 7x7 board.
//!
//! A board is the low 49 bits of a `u64`; square `s` sits at bit `s`, with
//! `s = file + 7 * rank` (file 0 on the left, rank 0 at the bottom).  Every
//! producing operation masks its result to the 49-bit board mask, so bits
//! 49..64 are always zero.

use vstd::prelude::*;

verus! {

/// Mask of all 49 board squares.
pub const FULL: u64 = 0x1ffffffffffff;

/// The leftmost file (file a): bits 0, 7, .., 42.
pub const FILE_A: u64 = 0x40810204081;

/// The second file from the left (file b).
pub const FILE_B: u64 = 0x81020408102;

/// The second file from the right (file f): bits 5, 12, .., 47.
pub const FILE_F: u64 = 0x810204081020;

/// The rightmost file (file g): bits 6, 13, .., 48.
pub const FILE_G: u64 = 0x1020408102040;

/// One step north, masked to the board.
pub open spec fn north_spec(b: u64) -> u64 {
    (b << 7) & FULL
}

/// One step south, masked to the board.
pub open spec fn south_spec(b: u64) -> u64 {
    (b >> 7) & FULL
}

/// One step east; file a is cleared so nothing wraps around the right edge.
pub open spec fn east_spec(b: u64) -> u64 {
    (b << 1) & !FILE_A & FULL
}

/// One step west; file g is cleared so nothing wraps around the left edge.
pub open spec fn west_spec(b: u64) -> u64 {
    (b >> 1) & !FILE_G & FULL
}

/// Complement within the board mask.
pub open spec fn comp_spec(b: u64) -> u64 {
    !b & FULL
}

/// Every square one king step (Chebyshev distance 1) away from a square of
/// `b`: the growth targets and the capture flood around a destination.
pub open spec fn singles_spec(b: u64) -> u64 {
    ((b << 7) | (b >> 7) | (((b << 1) | (b << 8) | (b >> 6)) & !FILE_A) | (((b >> 1) | (b << 6)
        | (b >> 8)) & !FILE_G)) & FULL
}

/// Every square at Chebyshev distance exactly 2 from a square of `b`: the
/// jump targets.  Offsets that move two files east clear files a and b, and
/// those that move two files west clear files f and g, so nothing wraps.
pub open spec fn doubles_spec(b: u64) -> u64 {
    ((b << 14) | (b >> 14) | (((b << 15) | (b >> 13)) & !FILE_A) | (((b << 13) | (b >> 15))
        & !FILE_G) | (((b << 2) | (b << 16) | (b >> 12) | (b << 9) | (b >> 5)) & !(FILE_A | FILE_B))
        | (((b >> 2) | (b << 12) | (b >> 16) | (b << 5) | (b >> 9)) & !(FILE_F | FILE_G))) & FULL
}

/// Everything a player holding `b` can target in one move.
pub open spec fn reach_spec(b: u64) -> u64 {
    singles_spec(b) | doubles_spec(b)
}

/// The indices of the set bits of `b`, lowest first: the canonical traversal
/// order of a bitboard.
pub open spec fn bit_indices(b: u64) -> Seq<u8>
    decreases b,
    via bit_indices_decreases
{
    if b == 0 {
        Seq::empty()
    } else {
        seq![vstd::std_specs::bits::u64_trailing_zeros(b) as u8] + bit_indices(
            b & ((b - 1) as u64),
        )
    }
}

#[via_fn]
proof fn bit_indices_decreases(b: u64) {
    if b != 0 {
        lemma_clear_lowest(b);
    }
}

/// How many bits of `b` are set.
pub open spec fn card(b: u64) -> nat {
    bit_indices(b).len()
}

/// A set bit viewed as a predicate: bit `t` of `b` is one.
pub open spec fn bit(b: u64, t: u8) -> bool {
    t < 64 && (b >> (t as u64)) & 1 == 1
}

/// Clearing the lowest set bit strictly shrinks a nonzero word.
pub proof fn lemma_clear_lowest(b: u64)
    by (bit_vector)
    requires
        b != 0,
    ensures
        b & ((b - 1) as u64) < b,
{
}

/// Zero is neutral for union and absorbing for intersection.
pub proof fn lemma_zero_identities(x: u64)
    by (bit_vector)
    ensures
        0u64 & x == 0,
        x & 0 == 0,
        x | 0 == x,
        0u64 | x == x,
{
}

/// Intersection and union are commutative.
pub proof fn lemma_comm(a: u64, b: u64)
    by (bit_vector)
    ensures
        a & b == b & a,
        a | b == b | a,
{
}

/// A union of words on the board stays on the board.
pub proof fn lemma_or_in_board(x: u64, y: u64)
    by (bit_vector)
    requires
        x & !FULL == 0,
        y & !FULL == 0,
    ensures
        (x | y) & !FULL == 0,
{
}

/// No bit of the zero word is set.
pub proof fn lemma_zero_bit(t: u8)
    by (bit_vector)
    ensures
        !bit(0u64, t),
{
}

/// Bitwise effect of clearing the lowest set bit, with the trailing-zero
/// count handed in through its defining facts.
proof fn lemma_peel_bit(b: u64, tz: u64, t: u8)
    by (bit_vector)
    requires
        b != 0,
        tz < 64,
        (b >> tz) & 1 == 1,
        b << vstd::prelude::sub(64u64, tz) == 0,
    ensures
        ((b & ((b - 1) as u64)) >> (t as u64)) & 1 == 1 <==> ((b >> (t as u64)) & 1 == 1 && t
            as u64 != tz),
{
}

/// Clearing the lowest set bit removes exactly the bit at the trailing-zero
/// count and nothing else.
proof fn lemma_peel(b: u64)
    requires
        b != 0,
    ensures
        vstd::std_specs::bits::u64_trailing_zeros(b) < 64,
        bit(b, vstd::std_specs::bits::u64_trailing_zeros(b) as u8),
        forall|t: u8|
            #[trigger] bit(b & ((b - 1) as u64), t) <==> (bit(b, t) && t
                != vstd::std_specs::bits::u64_trailing_zeros(b)),
{
    vstd::std_specs::bits::axiom_u64_trailing_zeros(b);
    let tz = vstd::std_specs::bits::u64_trailing_zeros(b) as u64;
    assert(b << vstd::prelude::sub(64u64, tz) == 0);
    assert forall|t: u8|
        #[trigger] bit(b & ((b - 1) as u64), t) <==> (bit(b, t) && t
            != vstd::std_specs::bits::u64_trailing_zeros(b)) by {
        lemma_peel_bit(b, tz, t);
    }
}

/// A bit index occurs in `bit_indices(b)` exactly when that bit of `b` is
/// set.
pub proof fn lemma_bit_indices_bits(b: u64)
    ensures
        forall|t: u8| #[trigger] bit_indices(b).contains(t) <==> bit(b, t),
        bit_indices(b).no_duplicates(),
    decreases b,
{
    if b == 0 {
        assert forall|t: u8| !bit(0u64, t) by {
            lemma_zero_bit(t);
        }
        assert(bit_indices(0u64) == Seq::<u8>::empty());
    } else {
        lemma_peel(b);
        let rest = b & ((b - 1) as u64);
        lemma_clear_lowest(b);
        lemma_bit_indices_bits(rest);
        let tz = vstd::std_specs::bits::u64_trailing_zeros(b) as u8;
        let s = bit_indices(b);
        let r = bit_indices(rest);
        assert(s == seq![tz] + r);
        assert(s[0] == tz);
        assert forall|t: u8| #[trigger] s.contains(t) implies bit(b, t) by {
            let i = choose|i: int| 0 <= i < s.len() && s[i] == t;
            if i > 0 {
                assert(r[i - 1] == t);
                assert(r.contains(t));
            }
        }
        assert forall|t: u8| bit(b, t) implies #[trigger] s.contains(t) by {
            if t == tz {
                assert(s[0] == t);
            } else {
                assert(r.contains(t));
                let i = choose|i: int| 0 <= i < r.len() && r[i] == t;
                assert(s[i + 1] == t);
            }
        }
        assert forall|i: int, j: int|
            0 <= i < s.len() && 0 <= j < s.len() && i != j implies s[i] != s[j] by {
            let a = if i < j {
                i
            } else {
                j
            };
            let c = if i < j {
                j
            } else {
                i
            };
            if a == 0 {
                assert(r[c - 1] == s[c]);
                assert(r.contains(s[c]));
                assert(bit(rest, s[c]));
            } else {
                assert(r[a - 1] == s[a] && r[c - 1] == s[c]);
            }
        }
    }
}

/// The number of set bits never exceeds 64; more precisely, if all bits
/// below `m` are clear then at most `64 - m` bits are set.
proof fn lemma_card_bound_from(b: u64, m: u64)
    requires
        m < 64 ==> b & (((1u64 << m) - 1) as u64) == 0,
        m >= 64 ==> b == 0,
    ensures
        card(b) <= 64 - (if m > 64 { 64u64 } else { m }),
    decreases 64 - (if m > 64 { 64u64 } else { m }),
{
    if b != 0 {
        let m0 = if m > 64 { 64u64 } else { m };
        lemma_peel(b);
        vstd::std_specs::bits::axiom_u64_trailing_zeros(b);
        let tz = vstd::std_specs::bits::u64_trailing_zeros(b) as u64;
        let rest = b & ((b - 1) as u64);
        assert(b << vstd::prelude::sub(64u64, tz) == 0);
        assert((b != 0 && m0 < 64 && b & (((1u64 << m0) - 1) as u64) == 0 && tz < 64 && (b >> tz)
            & 1 == 1 && b << vstd::prelude::sub(64u64, tz) == 0) ==> tz >= m0) by (bit_vector);
        assert((b != 0 && tz < 63 && (b >> tz) & 1 == 1 && b << vstd::prelude::sub(64u64, tz) == 0) ==> (b & ((
        b - 1) as u64)) & (((1u64 << ((tz + 1) as u64)) - 1) as u64) == 0) by (bit_vector);
        assert((b != 0 && tz == 63 && b << vstd::prelude::sub(64u64, tz) == 0) ==> (b & ((b - 1) as u64))
            == 0) by (bit_vector);
        lemma_card_bound_from(rest, (tz + 1) as u64);
    }
}

/// At most 64 bits are set in a word.
pub proof fn lemma_card_le_64(b: u64)
    ensures
        card(b) <= 64,
{
    assert(b & (((1u64 << 0u64) - 1) as u64) == 0) by (bit_vector);
    lemma_card_bound_from(b, 0);
}

/// Bitwise effect of setting one bit.
pub proof fn lemma_or_bit(b: u64, t: u8, u: u8)
    by (bit_vector)
    requires
        t < 64,
    ensures
        bit(b | (1u64 << (t as u64)), u) <==> (bit(b, u) || u == t),
{
}

/// Setting one clear bit raises the count by one.
pub proof fn lemma_card_set_bit(b: u64, t: u8)
    requires
        t < 64,
        !bit(b, t),
    ensures
        card(b | (1u64 << (t as u64))) == card(b) + 1,
{
    let b2 = b | (1u64 << (t as u64));
    lemma_bit_indices_bits(b);
    lemma_bit_indices_bits(b2);
    assert forall|u: u8| #[trigger] bit(b2, u) <==> (bit(b, u) || u == t) by {
        lemma_or_bit(b, t, u);
    }
    bit_indices(b).unique_seq_to_set();
    bit_indices(b2).unique_seq_to_set();
    assert(bit_indices(b2).to_set() =~= bit_indices(b).to_set().insert(t));
    vstd::seq_lib::seq_to_set_is_finite(bit_indices(b));
    assert(bit_indices(b).to_set().insert(t).len() == bit_indices(b).to_set().len() + 1);
}

/// A bit of an intersection is a bit of both parts.
pub proof fn lemma_and_bit(x: u64, y: u64, t: u8)
    by (bit_vector)
    ensures
        bit(x & y, t) <==> (bit(x, t) && bit(y, t)),
{
}

/// An intersection with a union is empty exactly when both intersections
/// are.
pub proof fn lemma_or_and_zero(x: u64, y: u64, e: u64)
    by (bit_vector)
    ensures
        ((x | y) & e == 0) <==> (x & e == 0 && y & e == 0),
{
}

/// A nonzero word splits into its lowest set bit and the strictly smaller
/// remainder, disjointly.
pub proof fn lemma_lowest_bit(b: u64)
    requires
        b != 0,
    ensures
        bit_indices(b).len() >= 1,
        bit_indices(b)[0] < 64,
        b == (b & ((b - 1) as u64)) | (1u64 << (bit_indices(b)[0] as u64)),
        (b & ((b - 1) as u64)) & (1u64 << (bit_indices(b)[0] as u64)) == 0,
        !bit(b & ((b - 1) as u64), bit_indices(b)[0]),
        bit(b, bit_indices(b)[0]),
{
    vstd::std_specs::bits::axiom_u64_trailing_zeros(b);
    let tz = vstd::std_specs::bits::u64_trailing_zeros(b) as u64;
    lemma_peel(b);
    assert(bit_indices(b)[0] == tz as u8);
    assert((b != 0 && tz < 64 && (b >> tz) & 1 == 1 && b << vstd::prelude::sub(64u64, tz) == 0)
        ==> b == (b & ((b - 1) as u64)) | (1u64 << tz) && (b & ((b - 1) as u64)) & (1u64 << tz)
        == 0) by (bit_vector);
}

/// A single-bit word has exactly one set bit.
pub proof fn lemma_card_one_bit(t: u8)
    requires
        t < 64,
    ensures
        card(1u64 << (t as u64)) == 1,
{
    assert(bit_indices(0u64).len() == 0);
    assert forall|u: u8| !bit(0u64, u) by {
        lemma_zero_bit(u);
    }
    lemma_card_set_bit(0, t);
    lemma_zero_identities(1u64 << (t as u64));
}

/// Counting distributes over a disjoint union.
pub proof fn lemma_card_disjoint_union(a: u64, b: u64)
    requires
        a & b == 0,
    ensures
        card(a | b) == card(a) + card(b),
    decreases b,
{
    if b == 0 {
        lemma_zero_identities(a);
    } else {
        lemma_lowest_bit(b);
        let t = bit_indices(b)[0];
        let rest = b & ((b - 1) as u64);
        lemma_clear_lowest(b);
        assert(a & rest == 0 && (a | rest) & (1u64 << (t as u64)) == 0 && (a | b) == (a | rest) | (
        1u64 << (t as u64)) && rest | (1u64 << (t as u64)) == b) by (bit_vector)
            requires
                a & b == 0,
                b == rest | (1u64 << (t as u64)),
                rest & (1u64 << (t as u64)) == 0,
                rest == b & ((b - 1) as u64),
        ;
        lemma_card_disjoint_union(a, rest);
        lemma_and_bit(a | rest, 1u64 << (t as u64), t);
        assert(!bit(a | rest, t)) by {
            lemma_or_bit(a | rest, t, t);
            assert(((a | rest) | (1u64 << (t as u64))) & (1u64 << (t as u64)) == 0 ==> !bit(
                (a | rest) | (1u64 << (t as u64)),
                t,
            ) || true);
            assert forall|u: u8| (a | rest) & (1u64 << (t as u64)) == 0 && t < 64 && u == t
                implies !bit(a | rest, u) by {
                lemma_and_one_bit(a | rest, t);
            }
        }
        lemma_card_set_bit(a | rest, t);
        lemma_card_set_bit(rest, t);
        assert(rest | (1u64 << (t as u64)) == b);
    }
}

/// A word disjoint from a single bit does not hold that bit.
proof fn lemma_and_one_bit(x: u64, t: u8)
    by (bit_vector)
    requires
        t < 64,
        x & (1u64 << (t as u64)) == 0,
    ensures
        !bit(x, t),
{
}

/// Removing a set bit by xor clears exactly that bit.
pub proof fn lemma_xor_clear_bit(b: u64, t: u8)
    by (bit_vector)
    requires
        bit(b, t),
    ensures
        (b ^ (1u64 << (t as u64))) & (1u64 << (t as u64)) == 0,
        (b ^ (1u64 << (t as u64))) | (1u64 << (t as u64)) == b,
        !bit(b ^ (1u64 << (t as u64)), t),
{
}

/// Adding a clear bit by xor is the same as union.
pub proof fn lemma_xor_set_bit(b: u64, t: u8)
    by (bit_vector)
    requires
        t < 64,
        !bit(b, t),
    ensures
        (b ^ (1u64 << (t as u64))) == b | (1u64 << (t as u64)),
{
}

/// The spread operators distribute over union, and spread a union bit by
/// bit.
pub proof fn lemma_spread_union(a: u64, b: u64)
    ensures
        singles_spec(a | b) == singles_spec(a) | singles_spec(b),
        doubles_spec(a | b) == doubles_spec(a) | doubles_spec(b),
{
    assert(singles_spec(a | b) == singles_spec(a) | singles_spec(b) && doubles_spec(a | b)
        == doubles_spec(a) | doubles_spec(b)) by (bit_vector);
}

/// A spread of the empty board is empty.
pub proof fn lemma_spread_of_empty()
    ensures
        singles_spec(0) == 0,
        doubles_spec(0) == 0,
{
    assert(singles_spec(0) == 0 && doubles_spec(0) == 0) by (bit_vector);
}

/// No directional operation sets a bit outside the 49-bit board mask.
pub proof fn lemma_spread_in_board(b: u64)
    ensures
        north_spec(b) & !FULL == 0,
        south_spec(b) & !FULL == 0,
        east_spec(b) & !FULL == 0,
        west_spec(b) & !FULL == 0,
        singles_spec(b) & !FULL == 0,
        doubles_spec(b) & !FULL == 0,
        comp_spec(b) & !FULL == 0,
{
    assert(north_spec(b) & !FULL == 0 && south_spec(b) & !FULL == 0 && east_spec(b) & !FULL == 0
        && west_spec(b) & !FULL == 0 && singles_spec(b) & !FULL == 0 && doubles_spec(b) & !FULL == 0
        && comp_spec(b) & !FULL == 0) by (bit_vector);
}

/// Chebyshev distance between two squares: the larger of the file gap and
/// the rank gap.
pub open spec fn square_distance(s: u8, t: u8) -> int {
    let df = if s as int % 7 >= t as int % 7 {
        s as int % 7 - t as int % 7
    } else {
        t as int % 7 - s as int % 7
    };
    let dr = if s as int / 7 >= t as int / 7 {
        s as int / 7 - t as int / 7
    } else {
        t as int / 7 - s as int / 7
    };
    if df >= dr {
        df
    } else {
        dr
    }
}

/// Bit reading of one square's king ring, phrased for the bit-vector
/// solver.
#[verifier::spinoff_prover]
proof fn lemma_singles_ring_bv(s: u64, t: u64)
    by (bit_vector)
    requires
        s < 49,
        t < 49,
    ensures
        ((singles_spec(1u64 << s) >> t) & 1 == 1) <==> (s % 7 <= t % 7 + 1 && t % 7 <= s % 7 + 1
            && s / 7 <= t / 7 + 1 && t / 7 <= s / 7 + 1 && !(s % 7 == t % 7 && s / 7 == t / 7)),
{
}

/// Bit reading of one square's jump ring, phrased for the bit-vector
/// solver.
#[verifier::spinoff_prover]
proof fn lemma_doubles_ring_bv(s: u64, t: u64)
    by (bit_vector)
    requires
        s < 49,
        t < 49,
    ensures
        ((doubles_spec(1u64 << s) >> t) & 1 == 1) <==> (s % 7 <= t % 7 + 2 && t % 7 <= s % 7 + 2
            && s / 7 <= t / 7 + 2 && t / 7 <= s / 7 + 2 && (t % 7 >= s % 7 + 2 || s % 7 >= t % 7
            + 2 || t / 7 >= s / 7 + 2 || s / 7 >= t / 7 + 2)),
{
}

/// A square of one stone's king ring is exactly a square at Chebyshev
/// distance 1.
pub proof fn lemma_singles_ring(s: u8, t: u8)
    requires
        s < 49,
        t < 49,
    ensures
        bit(singles_spec(1u64 << (s as u64)), t) <==> square_distance(s, t) == 1,
{
    lemma_singles_ring_bv(s as u64, t as u64);
}

/// A square of one stone's jump ring is exactly a square at Chebyshev
/// distance 2.
pub proof fn lemma_doubles_ring(s: u8, t: u8)
    requires
        s < 49,
        t < 49,
    ensures
        bit(doubles_spec(1u64 << (s as u64)), t) <==> square_distance(s, t) == 2,
{
    lemma_doubles_ring_bv(s as u64, t as u64);
}

/// A bit of a union is a bit of either part.
pub proof fn lemma_or_bits(x: u64, y: u64, t: u8)
    by (bit_vector)
    ensures
        bit(x | y, t) <==> (bit(x, t) || bit(y, t)),
{
}

/// A set bit of a board word names a board square.
pub proof fn lemma_bit_in_board(x: u64, t: u8)
    by (bit_vector)
    requires
        x & !FULL == 0,
        bit(x, t),
    ensures
        t < 49,
{
}

/// The squares one king step from a board are exactly those at Chebyshev
/// distance 1 from one of its stones.
pub proof fn lemma_singles_members(b: u64, t: u8)
    requires
        b & !FULL == 0,
        t < 49,
    ensures
        bit(singles_spec(b), t) <==> exists|s: u8|
            s < 49 && #[trigger] bit(b, s) && square_distance(s, t) == 1,
    decreases b,
{
    lemma_spread_members(b, t, true)
}

/// The squares one jump from a board are exactly those at Chebyshev
/// distance 2 from one of its stones.
pub proof fn lemma_doubles_members(b: u64, t: u8)
    requires
        b & !FULL == 0,
        t < 49,
    ensures
        bit(doubles_spec(b), t) <==> exists|s: u8|
            s < 49 && #[trigger] bit(b, s) && square_distance(s, t) == 2,
    decreases b,
{
    lemma_spread_members(b, t, false)
}

/// Shared induction for the two spread membership readings: peel the lowest
/// stone, split the spread over the union, and combine the single-stone
/// ring reading with the rest.
proof fn lemma_spread_members(b: u64, t: u8, one_step: bool)
    requires
        b & !FULL == 0,
        t < 49,
    ensures
        one_step ==> (bit(singles_spec(b), t) <==> exists|s: u8|
            s < 49 && #[trigger] bit(b, s) && square_distance(s, t) == 1),
        !one_step ==> (bit(doubles_spec(b), t) <==> exists|s: u8|
            s < 49 && #[trigger] bit(b, s) && square_distance(s, t) == 2),
    decreases b,
{
    let d = if one_step {
        1int
    } else {
        2int
    };
    if b == 0 {
        lemma_spread_of_empty();
        assert forall|s: u8| !bit(0u64, s) by {
            lemma_zero_bit(s);
        }
        lemma_zero_bit(t);
        assert(!bit(singles_spec(0), t) && !bit(doubles_spec(0), t));
    } else {
        lemma_lowest_bit(b);
        lemma_clear_lowest(b);
        let head = bit_indices(b)[0];
        let rest = b & ((b - 1) as u64);
        assert(rest & !FULL == 0) by (bit_vector)
            requires
                b & !FULL == 0,
                rest == b & ((b - 1) as u64),
        ;
        lemma_bit_in_board(b, head);
        lemma_spread_union(rest, 1u64 << (head as u64));
        lemma_or_bits(singles_spec(rest), singles_spec(1u64 << (head as u64)), t);
        lemma_or_bits(doubles_spec(rest), doubles_spec(1u64 << (head as u64)), t);
        lemma_singles_ring(head, t);
        lemma_doubles_ring(head, t);
        lemma_spread_members(rest, t, one_step);
        lemma_bit_indices_bits(b);
        lemma_bit_indices_bits(rest);
        assert(bit_indices(rest) =~= bit_indices(b).drop_first());
        // a stone of the remainder is a stone of the board
        assert forall|s: u8| #[trigger] bit(rest, s) implies bit(b, s) && s != head by {
            assert(bit_indices(rest).contains(s));
            let q = choose|q: int| 0 <= q < bit_indices(rest).len() && bit_indices(rest)[q] == s;
            assert(bit_indices(b)[q + 1] == s);
            assert(bit_indices(b).contains(s));
        }
        // a stone of the board other than the head is a stone of the
        // remainder
        assert forall|s: u8| #[trigger] bit(b, s) && s != head implies bit(rest, s) by {
            assert(bit_indices(b).contains(s));
            let q = choose|q: int| 0 <= q < bit_indices(b).len() && bit_indices(b)[q] == s;
            assert(q != 0);
            assert(bit_indices(rest)[q - 1] == s);
            assert(bit_indices(rest).contains(s));
        }
        if one_step {
            assert forall|s: u8|
                s < 49 && #[trigger] bit(b, s) && square_distance(s, t) == 1 implies bit(
                singles_spec(b),
                t,
            ) by {
                if s == head {
                    assert(bit(singles_spec(1u64 << (head as u64)), t));
                } else {
                    assert(bit(rest, s));
                }
            }
        } else {
            assert forall|s: u8|
                s < 49 && #[trigger] bit(b, s) && square_distance(s, t) == 2 implies bit(
                doubles_spec(b),
                t,
            ) by {
                if s == head {
                    assert(bit(doubles_spec(1u64 << (head as u64)), t));
                } else {
                    assert(bit(rest, s));
                }
            }
        }
    }
}

/// Complement within the board mask is an involution, and a board never
/// meets its own complement.
pub proof fn lemma_complement(b: u64)
    requires
        b & !FULL == 0,
    ensures
        comp_spec(comp_spec(b)) == b,
        comp_spec(b) & b == 0,
{
    assert(b & !FULL == 0 ==> comp_spec(comp_spec(b)) == b && comp_spec(b) & b == 0)
        by (bit_vector);
}

/// A 49-bit set of board squares, wrapping a `u64` whose bits 49..64 are
/// zero whenever it came out of one of the producing operations.
#[derive(Debug, Clone, Copy, PartialEq, Eq, Structural)]
pub struct BitBoard(pub u64);

/// Walks the set bits of a board, lowest index first.
#[derive(Debug, Clone, Copy)]
pub struct BitBoardIter(pub u64);

impl core::ops::BitAnd for BitBoard {
    type Output = BitBoard;

    fn bitand(self, rhs: BitBoard) -> (r: BitBoard) {
        BitBoard(self.0 & rhs.0)
    }
}

impl vstd::std_specs::ops::BitAndSpecImpl for BitBoard {
    open spec fn obeys_bitand_spec() -> bool {
        true
    }

    open spec fn bitand_req(self, rhs: BitBoard) -> bool {
        true
    }

    open spec fn bitand_spec(self, rhs: BitBoard) -> BitBoard {
        BitBoard(self.0 & rhs.0)
    }
}

impl core::ops::BitOr for BitBoard {
    type Output = BitBoard;

    fn bitor(self, rhs: BitBoard) -> (r: BitBoard) {
        BitBoard(self.0 | rhs.0)
    }
}

impl vstd::std_specs::ops::BitOrSpecImpl for BitBoard {
    open spec fn obeys_bitor_spec() -> bool {
        true
    }

    open spec fn bitor_req(self, rhs: BitBoard) -> bool {
        true
    }

    open spec fn bitor_spec(self, rhs: BitBoard) -> BitBoard {
        BitBoard(self.0 | rhs.0)
    }
}

impl core::ops::BitXor for BitBoard {
    type Output = BitBoard;

    fn bitxor(self, rhs: BitBoard) -> (r: BitBoard) {
        BitBoard(self.0 ^ rhs.0)
    }
}

impl vstd::std_specs::ops::BitXorSpecImpl for BitBoard {
    open spec fn obeys_bitxor_spec() -> bool {
        true
    }

    open spec fn bitxor_req(self, rhs: BitBoard) -> bool {
        true
    }

    open spec fn bitxor_spec(self, rhs: BitBoard) -> BitBoard {
        BitBoard(self.0 ^ rhs.0)
    }
}

impl core::ops::Not for BitBoard {
    type Output = BitBoard;

    fn not(self) -> (r: BitBoard) {
        BitBoard(!self.0 & FULL)
    }
}

impl vstd::std_specs::ops::NotSpecImpl for BitBoard {
    open spec fn obeys_not_spec() -> bool {
        true
    }

    open spec fn not_req(self) -> bool {
        true
    }

    open spec fn not_spec(self) -> BitBoard {
        BitBoard(comp_spec(self.0))
    }
}

impl BitBoard {
    /// The board holding exactly the square `sq`.
    pub fn from_index(sq: u8) -> (r: BitBoard)
        requires
            sq < 64,
        ensures
            r.0 == 1u64 << (sq as u64),
    {
        BitBoard(1u64 << (sq as u64))
    }

    /// The board holding exactly the square at `file` and `rank`.
    pub fn from_square(file: usize, rank: usize) -> (r: BitBoard)
        requires
            file < 7,
            rank < 7,
        ensures
            r.0 == 1u64 << ((file + 7 * rank) as u64),
    {
        BitBoard(1u64 << ((file + 7 * rank) as u64))
    }

    /// Counts the set bits.
    pub fn popcnt(&self) -> (r: u32)
        ensures
            r == card(self.0),
    {
        proof {
            lemma_card_le_64(self.0);
        }
        let mut rest: u64 = self.0;
        let mut count: u32 = 0;
        while rest != 0
            invariant
                count + card(rest) == card(self.0),
                card(self.0) <= 64,
            decreases rest,
        {
            proof {
                lemma_clear_lowest(rest);
            }
            rest = rest & (rest - 1);
            count = count + 1;
        }
        count
    }

    /// The board with every square set.
    pub fn full() -> (r: BitBoard)
        ensures
            r.0 == FULL,
    {
        BitBoard(FULL)
    }

    /// True when no square is set.
    pub fn is_empty(&self) -> (r: bool)
        ensures
            r == (self.0 == 0),
    {
        self.0 == 0
    }

    /// Shifts every square one rank up.
    pub fn north(&self) -> (r: BitBoard)
        ensures
            r.0 == north_spec(self.0),
    {
        BitBoard((self.0 << 7) & FULL)
    }

    /// Shifts every square one rank down.
    pub fn south(&self) -> (r: BitBoard)
        ensures
            r.0 == south_spec(self.0),
    {
        BitBoard((self.0 >> 7) & FULL)
    }

    /// Shifts every square one file right.
    pub fn east(&self) -> (r: BitBoard)
        ensures
            r.0 == east_spec(self.0),
    {
        BitBoard((self.0 << 1) & !FILE_A & FULL)
    }

    /// Shifts every square one file left.
    pub fn west(&self) -> (r: BitBoard)
        ensures
            r.0 == west_spec(self.0),
    {
        BitBoard((self.0 >> 1) & !FILE_G & FULL)
    }

    /// All squares one king step away from this board.
    pub fn singles(&self) -> (r: BitBoard)
        ensures
            r.0 == singles_spec(self.0),
    {
        let b = self.0;
        BitBoard(
            ((b << 7) | (b >> 7) | (((b << 1) | (b << 8) | (b >> 6)) & !FILE_A) | (((b >> 1) | (b
                << 6) | (b >> 8)) & !FILE_G)) & FULL,
        )
    }

    /// All squares at Chebyshev distance exactly 2 from this board.
    pub fn doubles(&self) -> (r: BitBoard)
        ensures
            r.0 == doubles_spec(self.0),
    {
        let b = self.0;
        BitBoard(
            ((b << 14) | (b >> 14) | (((b << 15) | (b >> 13)) & !FILE_A) | (((b << 13) | (b >> 15))
                & !FILE_G) | (((b << 2) | (b << 16) | (b >> 12) | (b << 9) | (b >> 5)) & !(FILE_A
                | FILE_B)) | (((b >> 2) | (b << 12) | (b >> 16) | (b << 5) | (b >> 9)) & !(FILE_F
                | FILE_G))) & FULL,
        )
    }

    /// Union of singles and doubles: everything reachable in one move.
    pub fn reach(&self) -> (r: BitBoard)
        ensures
            r.0 == reach_spec(self.0),
    {
        let s = self.singles();
        let d = self.doubles();
        BitBoard(s.0 | d.0)
    }

    /// An iterator over the set bits, lowest index first.
    pub fn iter(&self) -> (r: BitBoardIter)
        ensures
            r.0 == self.0,
    {
        BitBoardIter(self.0)
    }
}

impl BitBoardIter {
    /// Yields the next set bit, lowest first, clearing it from the residue.
    pub fn next(&mut self) -> (r: Option<u8>)
        ensures
            old(self).0 == 0 ==> r is None && final(self).0 == old(self).0,
            old(self).0 != 0 ==> {
                &&& r == Some(bit_indices(old(self).0)[0])
                &&& final(self).0 == (old(self).0 & ((old(self).0 - 1) as u64))
                &&& bit_indices(final(self).0) == bit_indices(old(self).0).drop_first()
            },
    {
        if self.0 == 0 {
            None
        } else {
            let index = self.0.trailing_zeros() as u8;
            proof {
                assert(bit_indices(self.0) == seq![
                    vstd::std_specs::bits::u64_trailing_zeros(self.0) as u8,
                ] + bit_indices(self.0 & ((self.0 - 1) as u64)));
                assert((seq![vstd::std_specs::bits::u64_trailing_zeros(self.0) as u8]
                    + bit_indices(self.0 & ((self.0 - 1) as u64))).drop_first() =~= bit_indices(
                    self.0 & ((self.0 - 1) as u64),
                ));
            }
            self.0 = self.0 & (self.0 - 1);
            Some(index)
        }
    }
}

} // verus!
