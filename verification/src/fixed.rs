//! The Q16.16 fixed-point number line and the small arithmetic routines
//! the mixing engine is built on: flooring division and integer square
//! root, each with an exact contract.

use vstd::prelude::*;

verus! {

use vstd::arithmetic::div_mod::lemma_fundamental_div_mod;
use vstd::arithmetic::div_mod::lemma_fundamental_div_mod_converse;

/// Fixed-point scale: an `i64` holding `SCALE` stands for the amplitude 1.0.
pub const SCALE: i64 = 65536;

/// Half of [`SCALE`], the fixed-point representation of 0.5.
pub const HALF_SCALE: i64 = 32768;

/// Largest magnitude accepted for a sample or a gain value (64.0 in
/// fixed point); keeps every product taken by the engine inside `i64`.
pub const MAX_AMP: i64 = 0x400000;

/// Largest magnitude a single track can add to one output slot:
/// `MAX_AMP * MAX_AMP / SCALE`.
pub const MAX_CONTRIB: i64 = 0x10000000;

/// Largest number of tracks a mixer will accumulate.
pub const MAX_TRACKS: usize = 16384;

/// Largest buffer length (in scalar samples) the engine operates on.
pub const MAX_LEN: usize = 0x40000000;

/// Flooring division by a positive divisor, total over the range the
/// engine uses. Matches the Euclidean `/` of specifications, which for a
/// positive divisor rounds toward negative infinity.
pub fn floor_div(x: i64, d: i64) -> (r: i64)
    requires
        0 < d,
        -0x4000_0000_0000_0000 <= x <= 0x4000_0000_0000_0000,
    ensures
        r == x as int / d as int,
{
    if x >= 0 {
        let q = (x as u64) / (d as u64);
        proof {
            lemma_fundamental_div_mod(x as int, d as int);
            lemma_fundamental_div_mod_converse(
                x as int,
                d as int,
                (x as u64 / d as u64) as int,
                (x as u64 % d as u64) as int,
            );
        }
        q as i64
    } else {
        let nx = (-x) as u64;
        let du = d as u64;
        let q = nx / du;
        let rem = nx % du;
        proof {
            lemma_fundamental_div_mod(nx as int, du as int);
            assert(nx as int == du as int * (q as int) + rem as int);
        }
        if rem == 0 {
            proof {
                assert(x as int == (-(q as int)) * (d as int) + 0) by (nonlinear_arith)
                    requires
                        nx as int == du as int * (q as int),
                        x as int == -(nx as int),
                        du as int == d as int,
                ;
                lemma_fundamental_div_mod_converse(x as int, d as int, -(q as int), 0);
            }
            -(q as i64)
        } else {
            proof {
                assert(x as int == (-(q as int) - 1) * (d as int) + (d - rem)) by (nonlinear_arith)
                    requires
                        nx as int == du as int * (q as int) + rem as int,
                        x as int == -(nx as int),
                        du as int == d as int,
                ;
                lemma_fundamental_div_mod_converse(
                    x as int,
                    d as int,
                    -(q as int) - 1,
                    d - rem,
                );
            }
            -(q as i64) - 1
        }
    }
}

/// A quotient by a positive divisor keeps the bound of the dividend:
/// `|x| <= m * d` gives `|x / d| <= m`.
pub proof fn lemma_div_bound_by(x: int, d: int, m: int)
    requires
        0 < d,
        0 <= m,
        -(m * d) <= x <= m * d,
    ensures
        -m <= x / d <= m,
{
    vstd::arithmetic::div_mod::lemma_div_is_ordered(-(m * d), x, d);
    vstd::arithmetic::div_mod::lemma_div_is_ordered(x, m * d, d);
    vstd::arithmetic::div_mod::lemma_div_multiples_vanish(m, d);
    vstd::arithmetic::div_mod::lemma_div_multiples_vanish(-m, d);
    assert(m * d == d * m) by (nonlinear_arith);
    assert(-(m * d) == d * (-m)) by (nonlinear_arith);
}

/// Holds when `r` is the integer square root of `x`: the greatest
/// integer whose square does not exceed `x`.
pub open spec fn is_sqrt(x: int, r: int) -> bool {
    &&& 0 <= r
    &&& r * r <= x
    &&& x < (r + 1) * (r + 1)
}

/// The integer square root of `x`, as a spec-level value; meaningful for
/// `x >= 0` (see [`lemma_sqrt_val_is_sqrt`]).
pub closed spec fn sqrt_val(x: int) -> int {
    choose|r: int| is_sqrt(x, r)
}

/// Every non-negative integer has an integer square root.
proof fn lemma_sqrt_exists(x: int) -> (r: int)
    requires
        0 <= x,
    ensures
        is_sqrt(x, r),
    decreases x,
{
    if x == 0 {
        assert(0 * 0 <= x && x < (0 + 1) * (0 + 1)) by (nonlinear_arith)
            requires
                x == 0,
        ;
        0
    } else {
        let p = lemma_sqrt_exists(x - 1);
        if x < (p + 1) * (p + 1) {
            assert(is_sqrt(x, p));
            p
        } else {
            assert((p + 1) * (p + 1) + 1 <= ((p + 1) + 1) * ((p + 1) + 1)) by (nonlinear_arith)
                requires
                    0 <= p,
            ;
            assert(is_sqrt(x, p + 1));
            p + 1
        }
    }
}

/// An integer has at most one integer square root.
proof fn lemma_sqrt_unique(x: int, r1: int, r2: int)
    requires
        is_sqrt(x, r1),
        is_sqrt(x, r2),
    ensures
        r1 == r2,
{
    if r1 < r2 {
        assert((r1 + 1) * (r1 + 1) <= r2 * r2) by (nonlinear_arith)
            requires
                0 <= r1 && r1 < r2,
        ;
    }
    if r2 < r1 {
        assert((r2 + 1) * (r2 + 1) <= r1 * r1) by (nonlinear_arith)
            requires
                0 <= r2 && r2 < r1,
        ;
    }
}

/// For non-negative `x`, [`sqrt_val`] is the integer square root.
pub proof fn lemma_sqrt_val_is_sqrt(x: int)
    requires
        0 <= x,
    ensures
        is_sqrt(x, sqrt_val(x)),
{
    let w = lemma_sqrt_exists(x);
    assert(is_sqrt(x, w));
}

/// Integer square root by bisection, for radicands up to `SCALE * SCALE`
/// (the largest value the pan law takes a root of).
pub fn isqrt(x: u64) -> (r: u64)
    requires
        x <= 0x1_0000_0000,
    ensures
        r == sqrt_val(x as int),
        is_sqrt(x as int, r as int),
{
    let mut lo: u64 = 0;
    let mut hi: u64 = 65537;
    proof {
        assert(x < 65537 * 65537) by (nonlinear_arith)
            requires
                x <= 0x1_0000_0000,
        ;
    }
    while lo + 1 < hi
        invariant
            lo < hi <= 65537,
            lo * lo <= x,
            x < hi * hi,
        decreases hi - lo,
    {
        let mid = lo + (hi - lo) / 2;
        proof {
            assert(mid * mid <= 65537 * 65537) by (nonlinear_arith)
                requires
                    0 <= mid <= 65537,
            ;
        }
        if mid * mid <= x {
            lo = mid;
        } else {
            hi = mid;
        }
    }
    proof {
        lemma_sqrt_val_is_sqrt(x as int);
        lemma_sqrt_unique(x as int, lo as int, sqrt_val(x as int));
    }
    lo
}

} // verus!
