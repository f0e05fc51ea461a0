//! Integer square root and sign-aware truncating division: the scalar
//! arithmetic that force accumulation is built on.

use vstd::prelude::*;
use vstd::arithmetic::div_mod::{lemma_div_is_ordered, lemma_div_multiples_vanish, lemma_div_pos_is_pos};
use vstd::arithmetic::mul::{lemma_mul_inequality, lemma_mul_nonnegative};

verus! {

/// Holds when `r` is the integer square root of `n`, rounded down.
pub open spec fn is_sqrt_floor(n: int, r: int) -> bool {
    0 <= r && r * r <= n && n < (r + 1) * (r + 1)
}

/// The integer square root of `n`, rounded down (meaningful for `n >= 0`).
pub open spec fn sqrt_floor(n: int) -> int {
    choose|r: int| is_sqrt_floor(n, r)
}

/// Every nonnegative integer has a rounded-down square root.
pub proof fn lemma_sqrt_floor_exists(n: int)
    requires
        0 <= n,
    ensures
        is_sqrt_floor(n, sqrt_floor(n)),
    decreases n,
{
    if n == 0 {
        assert(is_sqrt_floor(0, 0));
    } else {
        lemma_sqrt_floor_exists(n - 1);
        let r = sqrt_floor(n - 1);
        if (r + 1) * (r + 1) <= n {
            assert((r + 1) * (r + 1) == n);
            assert(n < (r + 2) * (r + 2)) by (nonlinear_arith)
                requires
                    0 <= r,
                    (r + 1) * (r + 1) == n,
            ;
            assert(is_sqrt_floor(n, r + 1));
        } else {
            assert(is_sqrt_floor(n, r));
        }
    }
    assert(exists|r: int| is_sqrt_floor(n, r));
}

/// The rounded-down square root is unique.
pub proof fn lemma_sqrt_floor_unique(n: int, r: int)
    requires
        is_sqrt_floor(n, r),
    ensures
        sqrt_floor(n) == r,
{
    assert(0 <= n) by (nonlinear_arith)
        requires
            0 <= r && r * r <= n,
    ;
    lemma_sqrt_floor_exists(n);
    let s = sqrt_floor(n);
    if s < r {
        assert((s + 1) * (s + 1) <= r * r) by (nonlinear_arith)
            requires
                0 <= s && s < r,
        ;
        assert(false);
    }
    if r < s {
        assert((r + 1) * (r + 1) <= s * s) by (nonlinear_arith)
            requires
                0 <= r && r < s,
        ;
        assert(false);
    }
}

/// Any nonnegative `a` with `a * a <= n` is at most `sqrt_floor(n)`.
pub proof fn lemma_sqrt_floor_ge(n: int, a: int)
    requires
        0 <= a,
        a * a <= n,
    ensures
        a <= sqrt_floor(n),
{
    assert(0 <= n) by (nonlinear_arith)
        requires
            0 <= a && a * a <= n,
    ;
    lemma_sqrt_floor_exists(n);
    let s = sqrt_floor(n);
    if s < a {
        assert((s + 1) * (s + 1) <= a * a) by (nonlinear_arith)
            requires
                0 <= s && s < a,
        ;
        assert(false);
    }
}

/// Integer square root of `n`, rounded down, by bisection.
pub fn isqrt(n: u128) -> (r: u64)
    requires
        n < 0x40000000000000000000000000000000u128,
    ensures
        r as int == sqrt_floor(n as int),
        is_sqrt_floor(n as int, r as int),
{
    let mut lo: u128 = 0;
    let mut hi: u128 = 0x8000000000000000u128;
    assert((hi as int) * (hi as int) == 0x40000000000000000000000000000000int) by (nonlinear_arith)
        requires
            hi == 0x8000000000000000u128,
    ;
    while lo + 1 < hi
        invariant
            0 <= lo < hi <= 0x8000000000000000u128,
            lo * lo <= n,
            (n as int) < (hi as int) * (hi as int),
        decreases hi - lo,
    {
        let mid = lo + (hi - lo) / 2;
        assert(lo < mid < hi);
        assert(mid * mid <= 0x8000000000000000u128 * 0x8000000000000000u128) by (nonlinear_arith)
            requires
                0 <= mid && mid <= 0x8000000000000000u128,
        ;
        if mid * mid <= n {
            lo = mid;
        } else {
            hi = mid;
        }
    }
    assert(hi == lo + 1);
    proof {
        lemma_sqrt_floor_unique(n as int, lo as int);
    }
    lo as u64
}

/// `mag * dir / den`, rounded toward zero, with the sign taken from `dir`
/// (`mag >= 0`, `den > 0`).
pub open spec fn mul_div(mag: int, dir: int, den: int) -> int {
    if dir >= 0 {
        (mag * dir) / den
    } else {
        -((mag * -dir) / den)
    }
}

/// If the magnitude of the scaled numerator is at most `b * den`, the
/// truncated quotient lies within `[-b, b]`.
pub proof fn lemma_mul_div_bound(mag: int, dir: int, den: int, b: int)
    requires
        0 <= mag,
        0 < den,
        0 <= b,
        mag * (if dir >= 0 { dir } else { -dir }) <= b * den,
    ensures
        -b <= mul_div(mag, dir, den) <= b,
{
    let m = if dir >= 0 { dir } else { -dir };
    lemma_mul_nonnegative(mag, m);
    lemma_div_pos_is_pos(mag * m, den);
    lemma_div_is_ordered(mag * m, b * den, den);
    lemma_div_multiples_vanish(b, den);
    vstd::arithmetic::mul::lemma_mul_is_commutative(b, den);
    assert((mag * m) / den <= b);
}

/// The quotient of a nonnegative numerator is nonnegative and bounded by it.
pub proof fn lemma_div_nonneg_le(x: int, d: int)
    requires
        0 <= x,
        0 < d,
    ensures
        0 <= x / d <= x,
{
    lemma_div_pos_is_pos(x, d);
    if x == 0 {
        vstd::arithmetic::div_mod::lemma_div_of0(d);
    } else if d == 1 {
        lemma_div_multiples_vanish(x, 1);
        assert(1 * x == x);
    } else {
        vstd::arithmetic::div_mod::lemma_div_is_strictly_smaller(x, d);
    }
}

/// Exec counterpart of `mul_div`: magnitudes are computed in `u128`, the
/// sign is applied afterwards.
pub fn scaled_div(mag: u128, dir: i128, den: u128) -> (r: i128)
    requires
        0 < den,
        -0x7fffffffffffffffffffffffffffffff < dir < 0x7fffffffffffffffffffffffffffffff,
        mag * (if dir >= 0 { dir as int } else { -(dir as int) }) < 0x80000000000000000000000000000000,
    ensures
        r as int == mul_div(mag as int, dir as int, den as int),
{
    if dir >= 0 {
        let d = dir as u128;
        let q = (mag * d) / den;
        proof {
            lemma_div_nonneg_le(mag as int * d as int, den as int);
        }
        q as i128
    } else {
        let d = (-dir) as u128;
        let q = (mag * d) / den;
        proof {
            lemma_div_nonneg_le(mag as int * d as int, den as int);
        }
        -(q as i128)
    }
}

} // verus!
