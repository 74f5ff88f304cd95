//! Fixed-point arithmetic shared by the delay line, the oscillator and the
//! filter.
//!
//! A fractional position (a read offset, an oscillator phase) is an unsigned
//! integer counted in units of `1 / ONE` sample: its integer part is
//! `p / ONE` and its fractional part `p % ONE`.
use vstd::prelude::*;
use vstd::arithmetic::div_mod::{
    lemma_div_is_ordered, lemma_div_multiples_vanish_fancy, lemma_fundamental_div_mod,
    lemma_fundamental_div_mod_converse,
};

verus! {

/// One whole sample (or one full unit of a fixed-point value).
pub const ONE: u32 = 65536;

/// Linear interpolation between `a` (weight `ONE - f`) and `b` (weight `f`),
/// rounded towards negative infinity.
pub open spec fn lerp(a: int, b: int, f: int) -> int {
    (a * (ONE - f) + b * f) / (ONE as int)
}

pub open spec fn min_int(a: int, b: int) -> int {
    if a <= b { a } else { b }
}

pub open spec fn max_int(a: int, b: int) -> int {
    if a <= b { b } else { a }
}

/// An interpolated value never leaves the range spanned by its two ends.
pub proof fn lemma_lerp_bounds(a: int, b: int, f: int)
    requires
        0 <= f <= ONE,
    ensures
        min_int(a, b) <= lerp(a, b, f) <= max_int(a, b),
{
    let lo = min_int(a, b);
    let hi = max_int(a, b);
    let one = ONE as int;
    let num = a * (one - f) + b * f;
    assert(lo * one <= num <= hi * one) by (nonlinear_arith)
        requires
            lo <= a <= hi,
            lo <= b <= hi,
            0 <= f <= one,
            num == a * (one - f) + b * f,
    ;
    lemma_div_is_ordered(lo * one, num, one);
    lemma_div_is_ordered(num, hi * one, one);
    lemma_div_multiples_vanish_fancy(lo, 0, one);
    lemma_div_multiples_vanish_fancy(hi, 0, one);
    assert(one * lo == lo * one && one * hi == hi * one) by (nonlinear_arith);
}

/// Interpolating between two equal values gives that value back.
pub proof fn lemma_lerp_same(a: int, f: int)
    requires
        0 <= f <= ONE,
    ensures
        lerp(a, a, f) == a,
{
    lemma_lerp_bounds(a, a, f);
}

/// A zero weight selects the first end exactly.
pub proof fn lemma_lerp_at_zero(a: int, b: int)
    ensures
        lerp(a, b, 0) == a,
{
    assert(a * (ONE - 0) + b * 0 == (ONE as int) * a + 0) by (nonlinear_arith);
    lemma_div_multiples_vanish_fancy(a, 0, ONE as int);
}

/// A full weight selects the second end exactly.
pub proof fn lemma_lerp_at_one(a: int, b: int)
    ensures
        lerp(a, b, ONE as int) == b,
{
    assert(a * (ONE - ONE) + b * ONE == (ONE as int) * b + 0) by (nonlinear_arith);
    lemma_div_multiples_vanish_fancy(b, 0, ONE as int);
}

/// Executable linear interpolation between two samples.
pub fn lerp_sample(a: i32, b: i32, f: u32) -> (r: i32)
    requires
        f <= ONE,
    ensures
        r == lerp(a as int, b as int, f as int),
{
    proof {
        lemma_lerp_bounds(a as int, b as int, f as int);
    }
    let w0: i64 = (ONE - f) as i64;
    let w1: i64 = f as i64;
    let one: i64 = ONE as i64;
    assert(-0x8000_0000 * one <= a as i64 * w0 + b as i64 * w1 <= 0x7fff_ffff * one
        && -0x8000_0000 * one <= a as i64 * w0 <= 0x8000_0000 * one
        && -0x8000_0000 * one <= b as i64 * w1 <= 0x8000_0000 * one) by (nonlinear_arith)
        requires
            -0x8000_0000 <= a <= 0x7fff_ffff,
            -0x8000_0000 <= b <= 0x7fff_ffff,
            w0 + w1 == one,
            0 <= w0,
            0 <= w1,
    ;
    let num: i64 = a as i64 * w0 + b as i64 * w1;
    // Shift into the non-negative range so that unsigned division rounds down.
    let bias: i64 = 0x8000_0000 * one;
    let shifted: u64 = (num + bias) as u64;
    let q: u64 = shifted / (ONE as u64);
    proof {
        let n = num as int;
        let d = ONE as int;
        lemma_fundamental_div_mod(n, d);
        let qq = n / d;
        let rr = n % d;
        assert(n + bias == (qq + 0x8000_0000) * d + rr) by (nonlinear_arith)
            requires
                n == d * qq + rr,
                bias == 0x8000_0000 * d,
        ;
        lemma_fundamental_div_mod_converse(n + bias, d, qq + 0x8000_0000, rr);
    }
    (q as i64 - 0x8000_0000) as i32
}

} // verus!
