//! Small integer numerics for the search: a floor square root and a coarse
//! fixed-point natural logarithm, enough to rank UCB scores without
//! floating point.

use vstd::prelude::*;

verus! {

/// One in 16.16 fixed point.
pub const FP_ONE: u64 = 65536;

/// ln 2 in 16.16 fixed point, rounded.
pub const LN2_FP: u64 = 45426;

/// `r` is the floor of the square root of `x`.
pub open spec fn is_sqrt_floor(x: u64, r: u64) -> bool {
    (r as int) * (r as int) <= x as int && (r as int + 1) * (r as int + 1) > x as int
}

/// The floor of the square root.
pub open spec fn sqrt_floor(x: u64) -> u64 {
    choose|r: u64| is_sqrt_floor(x, r)
}

/// Floor square roots are unique.
pub proof fn lemma_sqrt_floor_unique(x: u64, r1: u64, r2: u64)
    requires
        is_sqrt_floor(x, r1),
        is_sqrt_floor(x, r2),
    ensures
        r1 == r2,
{
    if r1 < r2 {
        assert((r1 as int + 1) * (r1 as int + 1) <= (r2 as int) * (r2 as int)) by (nonlinear_arith)
            requires
                0 <= r1 < r2,
        ;
    }
    if r2 < r1 {
        assert((r2 as int + 1) * (r2 as int + 1) <= (r1 as int) * (r1 as int)) by (nonlinear_arith)
            requires
                0 <= r2 < r1,
        ;
    }
}

/// The floor of the base-two logarithm.
pub open spec fn log2_floor_spec(n: u64) -> u64
    decreases n,
{
    if n < 2 {
        0
    } else {
        (1 + log2_floor_spec(n / 2)) as u64
    }
}

/// The logarithm of a word fits in six bits.
pub proof fn lemma_log2_le_63(n: u64)
    ensures
        log2_floor_spec(n) <= 63,
{
    vstd::arithmetic::power2::lemma2_to64_rest();
    assert(n < vstd::arithmetic::power2::pow2(64));
    lemma_log2_bound(n, 63);
}

/// A word below `2^(k+1)` has logarithm at most `k`.
proof fn lemma_log2_bound(n: u64, k: nat)
    requires
        n < vstd::arithmetic::power2::pow2(k + 1),
    ensures
        log2_floor_spec(n) <= k,
    decreases k,
{
    if n >= 2 {
        vstd::arithmetic::power2::lemma_pow2_unfold(k + 1);
        if k == 0 {
            vstd::arithmetic::power2::lemma2_to64();
        } else {
            lemma_log2_bound(n / 2, (k - 1) as nat);
        }
    }
}

/// Computes the floor of the base-two logarithm.
pub fn log2_floor(n: u64) -> (r: u64)
    ensures
        r == log2_floor_spec(n),
        r <= 63,
{
    proof {
        vstd::arithmetic::power2::lemma2_to64_rest();
        vstd::arithmetic::power2::lemma2_to64();
        lemma_log2_le_63(n);
    }
    let mut x: u64 = n;
    let mut r: u64 = 0;
    while x >= 2
        invariant
            r + log2_floor_spec(x) == log2_floor_spec(n),
            log2_floor_spec(n) <= 63,
            r <= 63,
        decreases x,
    {
        proof {
            assert(x >> 1u64 == x / 2) by (bit_vector);
            lemma_log2_le_63(x / 2);
            assert(log2_floor_spec(x) == 1 + log2_floor_spec(x / 2));
        }
        x = x >> 1;
        r = r + 1;
    }
    r
}

/// A coarse natural logarithm in 16.16 fixed point: `ln 2` times the floor
/// of the base-two logarithm.  Piecewise constant, monotone, and cheap; the
/// search only compares scores, so the missing fraction is harmless.
pub open spec fn ln_fp_spec(n: u64) -> u64 {
    (LN2_FP * log2_floor_spec(n)) as u64
}

/// Computes the coarse fixed-point natural logarithm.
pub fn ln_fp(n: u64) -> (r: u64)
    ensures
        r == ln_fp_spec(n),
        r <= LN2_FP * 63,
{
    let e = log2_floor(n);
    LN2_FP * e
}

/// Computes the floor of the square root by bisection.
pub fn isqrt(x: u64) -> (r: u64)
    ensures
        is_sqrt_floor(x, r),
        r == sqrt_floor(x),
        r <= 0x1_0000_0000,
{
    let mut lo: u64 = 0;
    let mut hi: u64 = 0x1_0000_0000;
    proof {
        assert((0x1_0000_0000u64 as int + 1) * (0x1_0000_0000u64 as int + 1) > u64::MAX as int)
            by (nonlinear_arith);
    }
    while lo + 1 < hi
        invariant
            lo < hi <= 0x1_0000_0000,
            (lo as int) * (lo as int) <= x as int,
            (hi as int) * (hi as int) > x as int,
        decreases hi - lo,
    {
        let mid = lo + (hi - lo) / 2;
        proof {
            assert(mid as int * mid as int <= 0x1_0000_0000int * 0x1_0000_0000int)
                by (nonlinear_arith)
                requires
                    0 <= mid <= 0x1_0000_0000,
            ;
        }
        if (mid as u128) * (mid as u128) <= x as u128 {
            lo = mid;
        } else {
            hi = mid;
        }
    }
    proof {
        assert((lo as int + 1) * (lo as int + 1) > x as int);
        assert(is_sqrt_floor(x, lo));
        lemma_sqrt_floor_unique(x, lo, sqrt_floor(x));
    }
    lo
}

} // verus!
