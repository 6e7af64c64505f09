//! Integer fixed-point arithmetic for the UCT selection score. Values carry
//! 16 fractional bits (one unit is `1 / 65536`). The score of a visited node
//! is its win rate plus the exploration term
//! `sqrt(log2(C * parent_sims / sims))` with `C = 1141 / 1000`, both computed
//! in fixed point; an unvisited node's score is infinite, so it outranks
//! every visited sibling.

use vstd::prelude::*;
use vstd::arithmetic::power2::{pow2, lemma_pow2_unfold, lemma_pow2_strictly_increases, lemma2_to64, lemma2_to64_rest};

verus! {

/// The integer square root: the greatest `r` with `r * r <= x`.
pub open spec fn spec_isqrt(x: int) -> int
    decreases x,
{
    if x <= 0 {
        0
    } else {
        let r = spec_isqrt(x - 1);
        if (r + 1) * (r + 1) <= x {
            r + 1
        } else {
            r
        }
    }
}

/// `spec_isqrt` is indeed the integer square root of its argument.
pub proof fn lemma_isqrt_bounds(x: int)
    requires
        x >= 0,
    ensures
        spec_isqrt(x) * spec_isqrt(x) <= x,
        x < (spec_isqrt(x) + 1) * (spec_isqrt(x) + 1),
        spec_isqrt(x) >= 0,
    decreases x,
{
    if x > 0 {
        lemma_isqrt_bounds(x - 1);
        let r = spec_isqrt(x - 1);
        assert((r + 1) * (r + 1) < (r + 2) * (r + 2)) by (nonlinear_arith)
            requires
                r >= 0,
        ;
    }
}

/// Any value between consecutive squares of `r` has `r` as its square root.
proof fn lemma_isqrt_unique(x: int, r: int)
    requires
        x >= 0,
        r >= 0,
        r * r <= x,
        x < (r + 1) * (r + 1),
    ensures
        spec_isqrt(x) == r,
{
    let s = spec_isqrt(x);
    lemma_isqrt_bounds(x);
    if s < r {
        assert((s + 1) * (s + 1) <= r * r) by (nonlinear_arith)
            requires
                0 <= s,
                s + 1 <= r,
        ;
    }
    if r < s {
        assert((r + 1) * (r + 1) <= s * s) by (nonlinear_arith)
            requires
                0 <= r,
                r + 1 <= s,
        ;
    }
}

/// The integer square root, by bisection.
pub fn isqrt(x: u64) -> (r: u64)
    ensures
        r == spec_isqrt(x as int),
{
    let mut lo: u64 = 0;
    let mut hi: u64 = 0x1_0000_0000;
    while lo + 1 < hi
        invariant
            lo < hi <= 0x1_0000_0000,
            (lo as u128) * (lo as u128) <= x as u128,
            (x as u128) < (hi as u128) * (hi as u128),
        decreases hi - lo,
    {
        let mid = lo + (hi - lo) / 2;
        proof {
            assert((mid as u128) * (mid as u128) <= 0x1_0000_0000 * 0x1_0000_0000) by (
            nonlinear_arith)
                requires
                    (mid as u128) <= 0x1_0000_0000,
            ;
        }
        if (mid as u128) * (mid as u128) <= x as u128 {
            lo = mid;
        } else {
            hi = mid;
        }
    }
    proof {
        assert(hi == lo + 1);
        assert((lo as int) * (lo as int) <= x as int);
        assert((x as int) < ((lo as int) + 1) * ((lo as int) + 1));
        lemma_isqrt_unique(x as int, lo as int);
    }
    lo
}

/// The integer part of the base-two logarithm of a fixed-point value:
/// how often it halves until it drops below two.
pub open spec fn spec_lg_int(y: int) -> int
    decreases y,
{
    if y >= 131072 {
        1 + spec_lg_int(y / 2)
    } else {
        0
    }
}

/// What remains of a fixed-point value after the halvings that
/// `spec_lg_int` counts.
pub open spec fn spec_lg_norm(y: int) -> int
    decreases y,
{
    if y >= 131072 {
        spec_lg_norm(y / 2)
    } else {
        y
    }
}

/// The next `i` fractional bits of the base-two logarithm of the normalized
/// fixed-point value `y` (in `[1, 2)`), by repeated squaring: the square of
/// `y` reaches two exactly where the logarithm's next bit is one.
pub open spec fn spec_frac_bits(y: int, i: nat) -> int
    decreases i,
{
    if i == 0 {
        0
    } else {
        let y2 = (y * y) / 65536;
        if y2 >= 131072 {
            pow2((i - 1) as nat) + spec_frac_bits(y2 / 2, (i - 1) as nat)
        } else {
            spec_frac_bits(y2, (i - 1) as nat)
        }
    }
}

/// The base-two logarithm of a fixed-point value at fixed-point scale, with
/// 16 fractional bits; zero for values of one or below.
pub open spec fn spec_log2_fp(x: int) -> int {
    if x < 65536 {
        0
    } else {
        65536 * spec_lg_int(x) + spec_frac_bits(spec_lg_norm(x), 16)
    }
}

/// The fractional bits stay below their scale.
proof fn lemma_frac_bits_bound(y: int, i: nat)
    ensures
        0 <= spec_frac_bits(y, i) < pow2(i),
    decreases i,
{
    vstd::arithmetic::power2::lemma_pow2_pos(i);
    if i > 0 {
        let y2 = (y * y) / 65536;
        lemma_pow2_unfold(i);
        if y2 >= 131072 {
            lemma_frac_bits_bound(y2 / 2, (i - 1) as nat);
        } else {
            lemma_frac_bits_bound(y2, (i - 1) as nat);
        }
    }
}

/// The base-two logarithm in fixed point, digit by digit.
pub fn log2_fp(x: u64) -> (r: u64)
    requires
        65536 <= x < 0x2000_0000_0000_0000,
    ensures
        r == spec_log2_fp(x as int),
        r <= 61 * 65536 + 65536,
{
    let mut y: u64 = x;
    let mut int_part: u64 = 0;
    proof {
        lemma2_to64();
    }
    while y >= 131072
        invariant
            65536 <= y <= x < 0x2000_0000_0000_0000,
            spec_lg_int(x as int) == int_part + spec_lg_int(y as int),
            spec_lg_norm(x as int) == spec_lg_norm(y as int),
            (y as int) * pow2(int_part as nat) <= x as int,
            int_part <= 61,
        decreases y,
    {
        proof {
            lemma2_to64();
            lemma2_to64_rest();
            let p = pow2(int_part as nat);
            assert(((y / 2) as int) * (2 * p) <= (y as int) * p) by (nonlinear_arith)
                requires
                    p >= 0,
                    2 * ((y / 2) as int) <= y as int,
            ;
            lemma_pow2_unfold((int_part + 1) as nat);
            if int_part >= 61 {
                if int_part > 61 {
                    lemma_pow2_strictly_increases(61, int_part as nat);
                }
                assert(pow2(61) == 0x2000_0000_0000_0000);
                assert((y as int) * p >= 131072 * 0x2000_0000_0000_0000) by (nonlinear_arith)
                    requires
                        y as int >= 131072,
                        p >= 0x2000_0000_0000_0000,
                ;
                assert(false);
            }
        }
        y = y / 2;
        int_part = int_part + 1;
    }
    let ghost y0 = y as int;
    let mut frac: u64 = 0;
    let mut i: u64 = 0;
    while i < 16
        invariant
            65536 <= y < 131072,
            i <= 16,
            frac < pow2(i as nat),
            (frac as int) * pow2((16 - i) as nat) + spec_frac_bits(y as int, (16 - i) as nat)
                == spec_frac_bits(y0, 16),
        decreases 16 - i,
    {
        proof {
            lemma2_to64();
            assert(65536 * 65536 <= (y as int) * (y as int) < 131072 * 131072) by (
            nonlinear_arith)
                requires
                    65536 <= (y as int) && (y as int) < 131072,
            ;
        }
        let y2 = (y * y) / 65536;
        let ghost rem = (16 - i) as nat;
        let ghost frac_old = frac as int;
        proof {
            lemma_pow2_unfold(rem);
            lemma_frac_bits_bound(y as int, rem);
            assert(spec_frac_bits(y as int, rem) == (if (y as int) * (y as int) / 65536 >= 131072 {
                pow2((rem - 1) as nat) + spec_frac_bits(((y as int) * (y as int) / 65536) / 2, (rem
                    - 1) as nat)
            } else {
                spec_frac_bits((y as int) * (y as int) / 65536, (rem - 1) as nat)
            }));
        }
        if y2 >= 131072 {
            frac = frac * 2 + 1;
            y = y2 / 2;
            proof {
                assert((2 * frac_old + 1) * pow2((rem - 1) as nat) == frac_old * (2 * pow2((rem
                    - 1) as nat)) + pow2((rem - 1) as nat)) by (nonlinear_arith);
            }
        } else {
            frac = frac * 2;
            y = y2;
            proof {
                assert((2 * frac_old) * pow2((rem - 1) as nat) == frac_old * (2 * pow2((rem
                    - 1) as nat))) by (nonlinear_arith);
            }
        }
        i = i + 1;
    }
    proof {
        lemma2_to64();
        assert(i == 16);
        assert(pow2(0) == 1);
        assert(spec_frac_bits(y as int, 0) == 0);
        assert((frac as int) * 1 == frac as int) by (nonlinear_arith);
        assert(frac as int == spec_frac_bits(y0, 16));
        lemma_frac_bits_bound(y0, 16);
    }
    int_part * 65536 + frac
}

/// The UCT score of a visited node in fixed point: the win rate plus the
/// square root of the base-two logarithm of `C * parent_sims / sims`, the
/// exploration constant `C` being `1141 / 1000`. A ratio of one or below
/// contributes no exploration term.
pub open spec fn spec_uct_score(wins: int, sims: int, parent_sims: int) -> int {
    let exploit = (wins * 65536) / sims;
    let ratio = (1141 * parent_sims * 65536) / (1000 * sims);
    let lg = if ratio < 65536 {
        0
    } else {
        spec_log2_fp(ratio)
    };
    exploit + spec_isqrt(lg * 65536)
}

/// Executable twin of `spec_uct_score`.
pub fn uct_score(wins: u64, sims: u64, parent_sims: u64) -> (r: u64)
    requires
        1 <= sims <= 0x1_0000_0000,
        wins <= sims,
        parent_sims <= 0x1_0000_0000,
    ensures
        r == spec_uct_score(wins as int, sims as int, parent_sims as int),
{
    let exploit = wins * 65536 / sims;
    let ratio = 1141 * parent_sims * 65536 / (1000 * sims);
    let lg: u64 = if ratio < 65536 {
        0
    } else {
        log2_fp(ratio)
    };
    proof {
        assert(exploit as int <= 65536) by (nonlinear_arith)
            requires
                exploit as int == (wins as int) * 65536 / (sims as int),
                0 <= (wins as int) && (wins as int) <= (sims as int),
                1 <= sims as int,
        ;
        lemma_isqrt_bounds(lg as int * 65536);
        let s = spec_isqrt(lg as int * 65536);
        assert(s <= 0x10_0000) by (nonlinear_arith)
            requires
                s >= 0,
                s * s <= (lg as int) * 65536,
                (lg as int) * 65536 <= 63 * 65536 * 65536,
        ;
    }
    exploit + isqrt(lg * 65536)
}

/// A node's UCT value: infinite for an unvisited node, so that exploration
/// always prefers it to any visited sibling.
#[derive(Clone, Copy, Debug, PartialEq, Eq, Structural)]
pub enum UctValue {
    Infinite,
    Finite(u64),
}

/// The ordering of UCT values: every finite value lies below the infinite
/// one, finite values compare as their magnitudes.
pub open spec fn spec_uct_le(a: UctValue, b: UctValue) -> bool {
    match (a, b) {
        (_, UctValue::Infinite) => true,
        (UctValue::Infinite, UctValue::Finite(_)) => false,
        (UctValue::Finite(x), UctValue::Finite(y)) => x <= y,
    }
}

/// Executable comparison: whether `a` ranks at least as high as `b`.
pub fn uct_ge(a: UctValue, b: UctValue) -> (r: bool)
    ensures
        r == spec_uct_le(b, a),
{
    match (a, b) {
        (UctValue::Infinite, _) => true,
        (UctValue::Finite(_), UctValue::Infinite) => false,
        (UctValue::Finite(x), UctValue::Finite(y)) => y <= x,
    }
}

} // verus!
