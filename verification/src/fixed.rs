//! Fixed-point arithmetic in micro-units: the value `v` stands for the real
//! number `v / 1_000_000`.  Division truncates toward zero, as the spec
//! functions here state explicitly, so every result is pinned exactly.
use vstd::prelude::*;

verus! {

/// One whole unit in micro-units.
pub const FP: i64 = 1_000_000;

/// Truncating division for a positive divisor: rounds toward zero.
pub open spec fn sdiv(a: int, b: int) -> int
    recommends
        b > 0,
{
    if a >= 0 {
        a / b
    } else {
        -((-a) / b)
    }
}

/// Product of two micro-unit values, scaled back to micro-units.
pub open spec fn fp_mul_s(a: int, b: int) -> int {
    sdiv(a * b, FP as int)
}

/// Clamping into a closed interval.
pub open spec fn clamp_s(x: int, lo: int, hi: int) -> int
    recommends
        lo <= hi,
{
    if x < lo {
        lo
    } else if x > hi {
        hi
    } else {
        x
    }
}

pub proof fn lemma_sdiv_bounds(a: int, b: int, m: int)
    requires
        b > 0,
        -m <= a <= m,
        0 <= m,
    ensures
        -m <= sdiv(a, b) <= m,
        a >= 0 ==> 0 <= sdiv(a, b) <= a,
        a <= 0 ==> a <= sdiv(a, b) <= 0,
{
    if a >= 0 {
        vstd::arithmetic::div_mod::lemma_div_is_ordered(a, m, b);
        vstd::arithmetic::div_mod::lemma_div_nonincreasing(a, b);
        vstd::arithmetic::div_mod::lemma_div_pos_is_pos(a, b);
    } else {
        vstd::arithmetic::div_mod::lemma_div_is_ordered(-a, m, b);
        vstd::arithmetic::div_mod::lemma_div_nonincreasing(-a, b);
        vstd::arithmetic::div_mod::lemma_div_pos_is_pos(-a, b);
    }
}

/// Truncating division of `a` by a positive `b`.
pub fn div_trunc(a: i64, b: i64) -> (r: i64)
    requires
        b > 0,
        a > i64::MIN,
    ensures
        r == sdiv(a as int, b as int),
        a >= 0 ==> 0 <= r <= a,
        a <= 0 ==> a <= r <= 0,
{
    proof {
        lemma_sdiv_bounds(a as int, b as int, if a >= 0 { a as int } else { -(a as int) });
    }
    if a >= 0 {
        a / b
    } else {
        -((-a) / b)
    }
}

/// Product of two micro-unit values, scaled back to micro-units.
pub fn fp_mul(a: i64, b: i64) -> (r: i64)
    requires
        -3_000_000_000 <= a <= 3_000_000_000,
        -3_000_000_000 <= b <= 3_000_000_000,
    ensures
        r == fp_mul_s(a as int, b as int),
        -3_000_000_000 * 3_000_000_000 <= r <= 3_000_000_000 * 3_000_000_000,
{
    proof {
        assert(-9_000_000_000_000_000_000 <= a * b <= 9_000_000_000_000_000_000)
            by (nonlinear_arith)
            requires
                -3_000_000_000 <= a <= 3_000_000_000,
                -3_000_000_000 <= b <= 3_000_000_000,
        ;
    }
    let p: i64 = a * b;
    div_trunc(p, FP)
}

/// Clamping into a closed interval.
pub fn clamp(x: i64, lo: i64, hi: i64) -> (r: i64)
    requires
        lo <= hi,
    ensures
        r == clamp_s(x as int, lo as int, hi as int),
        lo <= r <= hi,
{
    if x < lo {
        lo
    } else if x > hi {
        hi
    } else {
        x
    }
}

/// Whether `r` is the integer square root of `x`.
pub open spec fn is_isqrt(x: int, r: int) -> bool {
    0 <= r && r * r <= x < (r + 1) * (r + 1)
}

/// The integer square root.
pub open spec fn sqrt_s(x: int) -> int {
    choose|r: int| is_isqrt(x, r)
}

/// Every nonnegative integer up to the 62-bit range has an integer square
/// root, and it is unique, so `sqrt_s` is pinned on that range.
pub proof fn lemma_isqrt_exists_unique(x: int)
    requires
        0 <= x,
    ensures
        is_isqrt(x, sqrt_s(x)),
        forall|r1: int, r2: int| is_isqrt(x, r1) && is_isqrt(x, r2) ==> r1 == r2,
    decreases x,
{
    assert forall|r1: int, r2: int| is_isqrt(x, r1) && is_isqrt(x, r2) implies r1 == r2 by {
        assert(r1 == r2) by (nonlinear_arith)
            requires
                0 <= r1,
                0 <= r2,
                r1 * r1 <= x < (r1 + 1) * (r1 + 1),
                r2 * r2 <= x < (r2 + 1) * (r2 + 1),
        ;
    }
    if x == 0 {
        assert(is_isqrt(0, 0));
    } else {
        lemma_isqrt_exists_unique(x - 1);
        let p = sqrt_s(x - 1);
        if (p + 1) * (p + 1) <= x {
            assert(x <= (p + 1) * (p + 1)) by (nonlinear_arith)
                requires
                    x - 1 < (p + 1) * (p + 1),
            ;
            assert(is_isqrt(x, p + 1)) by (nonlinear_arith)
                requires
                    (p + 1) * (p + 1) <= x,
                    x <= (p + 1) * (p + 1),
                    0 <= p,
            ;
        } else {
            assert(is_isqrt(x, p));
        }
    }
}

/// Integer square root: the greatest `r` with `r * r <= x`.
pub fn isqrt(x: u64) -> (r: u64)
    requires
        x < 0x4000_0000_0000_0000,
    ensures
        r * r <= x < (r + 1) * (r + 1),
{
    let mut lo: u64 = 0;
    let mut hi: u64 = 0x8000_0000;
    while lo + 1 < hi
        invariant
            lo < hi <= 0x8000_0000,
            lo * lo <= x,
            x < hi * hi,
        decreases hi - lo,
    {
        let mid: u64 = lo + (hi - lo) / 2;
        proof {
            assert(mid * mid <= 0x8000_0000 * 0x8000_0000) by (nonlinear_arith)
                requires
                    mid <= 0x8000_0000,
            ;
        }
        if mid * mid <= x {
            lo = mid;
        } else {
            hi = mid;
        }
    }
    lo
}

} // verus!
