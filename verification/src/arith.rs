//! Integer helpers shared by the geometry: floor and nearest division, and the
//! integer square root.
use vstd::prelude::*;

verus! {

/// Absolute value of a mathematical integer.
pub open spec fn abs(x: int) -> int {
    if x < 0 {
        -x
    } else {
        x
    }
}

/// The quotient `a / b` rounded to the nearest integer, halves rounded up.
pub open spec fn round_div(a: int, b: int) -> int
    recommends
        b > 0,
{
    (2 * a + b) / (2 * b)
}

/// A dividend between `lo` and `hi` times the divisor has a rounded
/// quotient between `lo` and `hi`.
pub proof fn lemma_round_div_between(a: int, b: int, lo: int, hi: int)
    requires
        b > 0,
        lo * b <= a <= hi * b,
    ensures
        lo <= round_div(a, b) <= hi,
{
    let x = 2 * a + b;
    let d = 2 * b;
    assert(d * lo == 2 * (lo * b)) by (nonlinear_arith)
        requires
            d == 2 * b,
    ;
    assert(d * (hi + 1) == 2 * (hi * b) + 2 * b) by (nonlinear_arith)
        requires
            d == 2 * b,
    ;
    vstd::arithmetic::div_mod::lemma_div_is_ordered(d * lo, x, d);
    vstd::arithmetic::div_mod::lemma_div_multiples_vanish(lo, d);
    vstd::arithmetic::div_mod::lemma_multiply_divide_lt(x, d, hi + 1);
}

/// `r` is the integer square root of `n`: the largest `r` with `r * r <= n`.
pub open spec fn is_sqrt_floor(n: int, r: int) -> bool {
    0 <= r && r * r <= n && n < (r + 1) * (r + 1)
}

/// The integer square root of `n`, defined for `n >= 0`.
pub open spec fn sqrt_floor(n: int) -> int {
    choose|r: int| is_sqrt_floor(n, r)
}

/// At most one integer is the square root of `n`.
pub proof fn lemma_sqrt_floor_unique(n: int, r: int, s: int)
    requires
        is_sqrt_floor(n, r),
        is_sqrt_floor(n, s),
    ensures
        r == s,
{
    if r < s {
        assert((r + 1) * (r + 1) <= s * s) by (nonlinear_arith)
            requires
                0 <= r + 1 <= s,
        ;
    } else if s < r {
        assert((s + 1) * (s + 1) <= r * r) by (nonlinear_arith)
            requires
                0 <= s + 1 <= r,
        ;
    }
}

/// Any witness of the square root is the square root.
pub proof fn lemma_sqrt_floor_is(n: int, r: int)
    requires
        is_sqrt_floor(n, r),
    ensures
        sqrt_floor(n) == r,
        is_sqrt_floor(n, sqrt_floor(n)),
{
    lemma_sqrt_floor_unique(n, r, sqrt_floor(n));
}

/// The square root does not decrease when its argument grows.
pub proof fn lemma_sqrt_floor_monotone(m: int, r: int, n: int, s: int)
    requires
        is_sqrt_floor(m, r),
        is_sqrt_floor(n, s),
        m <= n,
    ensures
        r <= s,
{
    if s < r {
        assert((s + 1) * (s + 1) <= r * r) by (nonlinear_arith)
            requires
                0 <= s + 1 <= r,
        ;
    }
}

/// Floor division by a positive divisor, also for a negative dividend.
pub fn div_floor(a: i128, b: i128) -> (q: i128)
    requires
        b > 0,
    ensures
        q == a / b,
{
    if a >= 0 {
        a / b
    } else {
        let m: i128 = -(a + 1);
        let q0: i128 = m / b;
        assert((-(m + 1)) / (b as int) == -(m / b) - 1) by (nonlinear_arith)
            requires
                b > 0,
                m >= 0,
        ;
        -q0 - 1
    }
}

/// Division by a positive divisor, rounded to the nearest integer.
pub fn div_round(a: i128, b: i128) -> (q: i128)
    requires
        b > 0,
        -0x1fff_ffff_ffff_ffff_ffff_ffff_ffff_ffff <= a <= 0x1fff_ffff_ffff_ffff_ffff_ffff_ffff_ffff,
        b <= 0x1fff_ffff_ffff_ffff_ffff_ffff_ffff_ffff,
    ensures
        q == round_div(a as int, b as int),
{
    div_floor(2 * a + b, 2 * b)
}

/// The integer square root, by bisection on the sixty-four bit range.
pub fn isqrt(n: u128) -> (r: u128)
    ensures
        is_sqrt_floor(n as int, r as int),
        r == sqrt_floor(n as int),
        r < 0x1_0000_0000_0000_0000,
{
    let mut lo: u128 = 0;
    let mut hi: u128 = 0x1_0000_0000_0000_0000;
    assert(0x1_0000_0000_0000_0000int * 0x1_0000_0000_0000_0000int > n) by (nonlinear_arith)
        requires
            n <= u128::MAX,
    ;
    while hi - lo > 1
        invariant
            lo < hi <= 0x1_0000_0000_0000_0000,
            lo * lo <= n,
            n < hi * hi,
        decreases hi - lo,
    {
        let mid: u128 = lo + (hi - lo) / 2;
        assert(mid * mid <= 0xffff_ffff_ffff_ffffint * 0xffff_ffff_ffff_ffffint) by (nonlinear_arith)
            requires
                0 <= mid <= 0xffff_ffff_ffff_ffff,
        ;
        if mid * mid <= n {
            lo = mid;
        } else {
            hi = mid;
        }
    }
    proof {
        lemma_sqrt_floor_is(n as int, lo as int);
    }
    lo
}

} // verus!
