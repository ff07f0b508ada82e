//! Shared numeric primitives of the filters: fixed-point scale, luminance
//! weightings, truncating signed division, integer square root and a
//! fixed-point decaying exponential. Everything is exact integer arithmetic,
//! so each executable function returns precisely the value of its spec
//! counterpart.

use vstd::prelude::*;

verus! {

/// Fixed-point scale: 4096 represents 1.0.
pub const FP: i64 = 4096;

/// e^-1 in fixed-point scale (floor(4096 / e)).
pub const EXP_E_INV: i64 = 1506;

/// ITU-R 601-style luminance, in thousandths: 0.299 R + 0.587 G + 0.114 B.
/// Range 0 ..= 255000.
pub open spec fn luma601_of(r: u8, g: u8, b: u8) -> int {
    299 * r + 587 * g + 114 * b
}

/// Rec. 709 luminance, in ten-thousandths: 0.2126 R + 0.7152 G + 0.0722 B.
/// Range 0 ..= 2550000.
pub open spec fn luma709_of(r: u8, g: u8, b: u8) -> int {
    2126 * r + 7152 * g + 722 * b
}

pub fn luma601(r: u8, g: u8, b: u8) -> (l: u32)
    ensures
        l == luma601_of(r, g, b),
        l <= 255000,
{
    299 * (r as u32) + 587 * (g as u32) + 114 * (b as u32)
}

pub fn luma709(r: u8, g: u8, b: u8) -> (l: u32)
    ensures
        l == luma709_of(r, g, b),
        l <= 2550000,
{
    2126 * (r as u32) + 7152 * (g as u32) + 722 * (b as u32)
}

/// Clamp to a closed interval.
pub open spec fn clamp_of(v: int, lo: int, hi: int) -> int {
    if v < lo {
        lo
    } else if v > hi {
        hi
    } else {
        v
    }
}

pub fn clamp_i64(v: i64, lo: i64, hi: i64) -> (r: i64)
    requires
        lo <= hi,
    ensures
        r == clamp_of(v as int, lo as int, hi as int),
{
    if v < lo {
        lo
    } else if v > hi {
        hi
    } else {
        v
    }
}

/// Signed division truncating toward zero (the quantization rule of the
/// filters), defined for a positive divisor.
pub open spec fn div_tz(a: int, d: int) -> int
    recommends
        d > 0,
{
    if a >= 0 {
        a / d
    } else {
        -((-a) / d)
    }
}

pub fn quot_tz(a: i64, d: i64) -> (q: i64)
    requires
        d > 0,
        -0x4000_0000_0000_0000 < a < 0x4000_0000_0000_0000,
    ensures
        q == div_tz(a as int, d as int),
{
    if a >= 0 {
        a / d
    } else {
        -((-a) / d)
    }
}

/// Scaling a nonnegative value by a fixed-point factor at most one never
/// grows it.
pub proof fn lemma_fp_scale(x: int, f: int)
    requires
        0 <= x,
        0 <= f <= 4096,
    ensures
        0 <= x * f / 4096 <= x,
        x * f <= x * 4096,
{
    vstd::arithmetic::mul::lemma_mul_upper_bound(x, x, f, 4096);
    vstd::arithmetic::mul::lemma_mul_inequality(f, 4096, x);
    assert(x * f == f * x && x * 4096 == 4096 * x) by (nonlinear_arith);
    vstd::arithmetic::div_mod::lemma_div_is_ordered(x * f, x * 4096, 4096);
    vstd::arithmetic::div_mod::lemma_div_by_multiple(x, 4096);
    vstd::arithmetic::mul::lemma_mul_nonnegative(x, f);
    vstd::arithmetic::div_mod::lemma_div_pos_is_pos(x * f, 4096);
}

/// A truncating quotient is bounded when its numerator is.
pub proof fn lemma_div_tz_bound(a: int, d: int, b: int)
    requires
        d >= 1,
        b >= 0,
        -(b * d) <= a <= b * d,
    ensures
        -b <= div_tz(a, d) <= b,
{
    if a >= 0 {
        vstd::arithmetic::div_mod::lemma_div_is_ordered(a, b * d, d);
        vstd::arithmetic::div_mod::lemma_div_by_multiple(b, d);
        vstd::arithmetic::div_mod::lemma_div_pos_is_pos(a, d);
    } else {
        vstd::arithmetic::div_mod::lemma_div_is_ordered(-a, b * d, d);
        vstd::arithmetic::div_mod::lemma_div_by_multiple(b, d);
        vstd::arithmetic::div_mod::lemma_div_pos_is_pos(-a, d);
    }
}

/// Floor of the square root, defined by counting up.
pub open spec fn sqrt_floor(n: nat) -> nat
    decreases n,
{
    if n == 0 {
        0
    } else {
        let s = sqrt_floor((n - 1) as nat);
        if (s + 1) * (s + 1) <= n {
            s + 1
        } else {
            s
        }
    }
}

pub proof fn lemma_sqrt_floor_bounds(n: nat)
    ensures
        sqrt_floor(n) * sqrt_floor(n) <= n,
        n < (sqrt_floor(n) + 1) * (sqrt_floor(n) + 1),
    decreases n,
{
    if n == 0 {
        assert(sqrt_floor(0) == 0);
        assert((sqrt_floor(n) + 1) * (sqrt_floor(n) + 1) == 1) by (nonlinear_arith)
            requires
                sqrt_floor(n) == 0,
        ;
    } else {
        lemma_sqrt_floor_bounds((n - 1) as nat);
        let s = sqrt_floor((n - 1) as nat);
        if (s + 1) * (s + 1) <= n {
            assert(sqrt_floor(n) == s + 1);
            assert(n < (sqrt_floor(n) + 1) * (sqrt_floor(n) + 1)) by (nonlinear_arith)
                requires
                    sqrt_floor(n) == s + 1,
                    n - 1 < (s + 1) * (s + 1),
                    s >= 0,
            ;
        } else {
            assert(sqrt_floor(n) == s);
            assert(n < (sqrt_floor(n) + 1) * (sqrt_floor(n) + 1));
        }
    }
}

/// Any value bracketed by consecutive squares is the square-root floor.
pub proof fn lemma_sqrt_floor_unique(n: nat, r: nat)
    requires
        r * r <= n,
        n < (r + 1) * (r + 1),
    ensures
        r == sqrt_floor(n),
{
    lemma_sqrt_floor_bounds(n);
    let s = sqrt_floor(n);
    assert(r == s) by (nonlinear_arith)
        requires
            r * r <= n < (r + 1) * (r + 1),
            s * s <= n < (s + 1) * (s + 1),
            r >= 0,
            s >= 0,
    ;
}

/// Integer square root by bisection.
pub fn isqrt(n: u64) -> (r: u64)
    ensures
        r == sqrt_floor(n as nat),
        r * r <= n,
        n < (r + 1) * (r + 1),
        r <= 0xFFFF_FFFF,
{
    let mut lo: u64 = 0;
    let mut hi: u64 = 0x1_0000_0000;
    while lo + 1 < hi
        invariant
            lo < hi <= 0x1_0000_0000,
            lo * lo <= n,
            n < hi * hi,
        decreases hi - lo,
    {
        let mid = lo + (hi - lo) / 2;
        proof {
            assert(mid * mid <= 0xFFFF_FFFFu64 * 0xFFFF_FFFFu64) by (nonlinear_arith)
                requires
                    0 <= mid <= 0xFFFF_FFFFu64,
            ;
        }
        if mid * mid <= n {
            lo = mid;
        } else {
            hi = mid;
        }
    }
    proof {
        lemma_sqrt_floor_unique(n as nat, lo as nat);
    }
    lo
}

/// Truncated five-term series for e^-f on fixed-point f in [0, 1].
pub open spec fn exp_neg_frac_of(f: int) -> int
    recommends
        0 <= f <= FP,
{
    let f2 = f * f / (FP as int);
    let f3 = f2 * f / (FP as int);
    let f4 = f3 * f / (FP as int);
    let f5 = f4 * f / (FP as int);
    FP - f + f2 / 2 - f3 / 6 + f4 / 24 - f5 / 120
}

/// `r` scaled down by k factors of e^-1, truncating each step.
pub open spec fn exp_scale_of(r: int, k: nat) -> int
    decreases k,
{
    if k == 0 {
        r
    } else {
        exp_scale_of(r * (EXP_E_INV as int) / (FP as int), (k - 1) as nat)
    }
}

/// Fixed-point e^-z for z >= 0; zero once z reaches 16.
pub open spec fn exp_neg_of(z: int) -> int
    recommends
        z >= 0,
{
    if z >= 16 * FP {
        0
    } else {
        exp_scale_of(exp_neg_frac_of(z % (FP as int)), (z / (FP as int)) as nat)
    }
}

proof fn lemma_exp_scale_bounds(r: int, k: nat)
    requires
        0 <= r <= FP,
    ensures
        0 <= exp_scale_of(r, k) <= r,
    decreases k,
{
    if k == 0 {
    } else {
        let r1 = r * (EXP_E_INV as int) / (FP as int);
        lemma_fp_scale(r, EXP_E_INV as int);
        lemma_exp_scale_bounds(r1, (k - 1) as nat);
    }
}

fn exp_neg_frac(f: i64) -> (r: i64)
    requires
        0 <= f <= FP,
    ensures
        r == exp_neg_frac_of(f as int),
        0 <= r <= FP,
        f == 0 ==> r == FP,
{
    proof {
        lemma_fp_scale(f as int, f as int);
    }
    let f2 = f * f / FP;
    proof {
        lemma_fp_scale(f2 as int, f as int);
    }
    let f3 = f2 * f / FP;
    proof {
        lemma_fp_scale(f3 as int, f as int);
    }
    let f4 = f3 * f / FP;
    proof {
        lemma_fp_scale(f4 as int, f as int);
    }
    let f5 = f4 * f / FP;
    proof {
        vstd::arithmetic::div_mod::lemma_div_is_ordered(f3 as int, f2 as int, 6);
        vstd::arithmetic::div_mod::lemma_div_is_ordered_by_denominator(f2 as int, 2, 6);
        vstd::arithmetic::div_mod::lemma_div_is_ordered(f5 as int, f4 as int, 120);
        vstd::arithmetic::div_mod::lemma_div_is_ordered_by_denominator(f4 as int, 24, 120);
        vstd::arithmetic::div_mod::lemma_div_is_ordered(f2 as int, f as int, 2);
        vstd::arithmetic::div_mod::lemma_div_is_ordered(f4 as int, f as int, 24);
        vstd::arithmetic::div_mod::lemma_div_is_ordered_by_denominator(f as int, 2, 24);
        assert(2 * (f as int / 2) <= f) by {
            vstd::arithmetic::div_mod::lemma_fundamental_div_mod(f as int, 2);
        }
    }
    let r = FP - f + f2 / 2 - f3 / 6 + f4 / 24 - f5 / 120;
    assert(0 <= r <= FP);
    r
}

/// Fixed-point e^-z; exact value of `exp_neg_of`.
pub fn exp_neg(z: i64) -> (r: i64)
    requires
        z >= 0,
    ensures
        r == exp_neg_of(z as int),
        0 <= r <= FP,
        z == 0 ==> r == FP,
{
    if z >= 16 * FP {
        0
    } else {
        let k = z / FP;
        let f = z % FP;
        let mut r = exp_neg_frac(f);
        proof {
            lemma_exp_scale_bounds(r as int, k as nat);
        }
        let mut i: i64 = 0;
        while i < k
            invariant
                0 <= i <= k < 16,
                0 <= r <= FP,
                exp_scale_of(r as int, (k - i) as nat) == exp_neg_of(z as int),
            decreases k - i,
        {
            proof {
                lemma_fp_scale(r as int, EXP_E_INV as int);
            }
            r = r * EXP_E_INV / FP;
            i = i + 1;
        }
        proof {
            lemma_exp_scale_bounds(r as int, 0);
        }
        r
    }
}

} // verus!
