//! One period of a sine wave in fixed point, computed with integer arithmetic
//! only.
//!
//! A value is `sin(2π·i/n)` scaled by `ONE`. The quarter wave is evaluated with
//! the Taylor polynomial of degree nine in Horner form, at 32 fractional bits,
//! then rounded to 16; the other three quarters follow by symmetry. The
//! polynomial is exact to a few millionths on the quarter wave, well under the
//! rounding step of the result.
use vstd::prelude::*;
use crate::fixed::ONE;

verus! {

/// `π/2` with 32 fractional bits.
pub const HALF_PI_Q32: u128 = 6746518852;

/// One with 32 fractional bits.
pub const UNIT_Q32: u128 = 4294967296;

/// One Horner step `1 - x²·t/d` at 32 fractional bits.
pub open spec fn horner_step(x2: int, t: int, d: int) -> int {
    let q = UNIT_Q32 as int;
    q - (x2 * t / q) / d
}

/// The quarter-wave polynomial `1 - x²/6·(1 - x²/20·(1 - x²/42·(1 - x²/72)))`
/// at `x2 = x²` (32 fractional bits), before the final multiplication by `x`.
pub open spec fn horner(x2: int) -> int {
    let q = UNIT_Q32 as int;
    horner_step(x2, horner_step(x2, horner_step(x2, q - x2 / 72, 42), 20), 6)
}

/// `sin(π/2 · u/n)` scaled by `ONE`, for `0 <= u <= n`, rounded to nearest
/// and capped at `ONE`.
pub open spec fn quarter_sine(u: int, n: int) -> int {
    let q = UNIT_Q32 as int;
    let x = u * (HALF_PI_Q32 as int) / n;
    let s = x * horner(x * x / q) / q;
    let r = (s + 32768) / 65536;
    if r > ONE {
        ONE as int
    } else {
        r
    }
}

/// `sin(2π·i/n)` scaled by `ONE`: the quarter wave, mirrored in the second
/// and fourth quarter and negated in the second half.
pub open spec fn sine_q(i: int, n: int) -> int {
    let k = (4 * i) / n;
    let r = (4 * i) % n;
    let m = quarter_sine(if k % 2 == 0 { r } else { n - r }, n);
    if k < 2 {
        m
    } else {
        -m
    }
}

proof fn lemma_horner_step_range(x2: int, t: int, d: int)
    requires
        0 <= x2 <= 3 * UNIT_Q32,
        0 <= t <= UNIT_Q32,
        d >= 6,
    ensures
        0 <= x2 * t <= 3 * UNIT_Q32 * UNIT_Q32,
        0 <= horner_step(x2, t, d) <= UNIT_Q32,
{
    let q = UNIT_Q32 as int;
    assert(0 <= x2 * t <= x2 * q <= 3 * q * q) by (nonlinear_arith)
        requires
            0 <= t <= q,
            0 <= x2 <= 3 * q,
    ;
    vstd::arithmetic::div_mod::lemma_div_is_ordered(x2 * t, x2 * q, q);
    vstd::arithmetic::div_mod::lemma_div_multiples_vanish(x2, q);
    vstd::arithmetic::div_mod::lemma_div_pos_is_pos(x2 * t, q);
    let y = x2 * t / q;
    vstd::arithmetic::div_mod::lemma_fundamental_div_mod(y, d);
    vstd::arithmetic::div_mod::lemma_div_pos_is_pos(y, d);
    vstd::arithmetic::div_mod::lemma_mod_pos_bound(y, d);
    assert(y / d <= q) by (nonlinear_arith)
        requires
            y == d * (y / d) + y % d,
            0 <= y % d,
            y <= 3 * q,
            d >= 6,
            y / d >= 0,
            q > 0,
    ;
}

proof fn lemma_horner_range(x2: int)
    requires
        0 <= x2 <= 3 * UNIT_Q32,
    ensures
        0 <= horner(x2) <= UNIT_Q32,
{
    let q = UNIT_Q32 as int;
    let t4 = q - x2 / 72;
    lemma_horner_step_range(x2, t4, 42);
    let t3 = horner_step(x2, t4, 42);
    lemma_horner_step_range(x2, t3, 20);
    lemma_horner_step_range(x2, horner_step(x2, t3, 20), 6);
}

/// The square of an angle of at most `π/2`, at 32 fractional bits.
proof fn lemma_square_range(x: int)
    requires
        0 <= x <= HALF_PI_Q32,
    ensures
        0 <= x * x / (UNIT_Q32 as int) <= 3 * UNIT_Q32,
{
    let q = UNIT_Q32 as int;
    assert(0 <= x * x <= 3 * q * q) by (nonlinear_arith)
        requires
            0 <= x <= HALF_PI_Q32,
            q == UNIT_Q32,
    ;
    vstd::arithmetic::div_mod::lemma_div_is_ordered(x * x, 3 * q * q, q);
    assert(3 * q * q == (3 * q) * q) by (nonlinear_arith);
    vstd::arithmetic::div_mod::lemma_div_multiples_vanish(3 * q, q);
    vstd::arithmetic::div_mod::lemma_div_pos_is_pos(x * x, q);
}

proof fn lemma_angle_range(u: int, n: int)
    requires
        0 <= u <= n,
        n >= 1,
    ensures
        0 <= u * (HALF_PI_Q32 as int) / n <= HALF_PI_Q32,
{
    let h = HALF_PI_Q32 as int;
    assert(0 <= u * h <= n * h) by (nonlinear_arith)
        requires
            0 <= u <= n,
            h >= 0,
    ;
    vstd::arithmetic::div_mod::lemma_div_is_ordered(u * h, n * h, n);
    assert(n * h == h * n) by (nonlinear_arith);
    vstd::arithmetic::div_mod::lemma_div_multiples_vanish(h, n);
    vstd::arithmetic::div_mod::lemma_div_pos_is_pos(u * h, n);
}

/// Every value of the table lies in `[-ONE, ONE]`.
pub proof fn lemma_sine_q_range(i: int, n: int)
    requires
        0 <= i < n,
    ensures
        -(ONE as int) <= sine_q(i, n) <= ONE,
{
    let k = (4 * i) / n;
    let r = (4 * i) % n;
    let u = if k % 2 == 0 { r } else { n - r };
    let q = UNIT_Q32 as int;
    lemma_angle_range(u, n);
    let x = u * (HALF_PI_Q32 as int) / n;
    lemma_square_range(x);
    lemma_horner_range(x * x / q);
    let t = horner(x * x / q);
    assert(0 <= x * t) by (nonlinear_arith)
        requires
            0 <= x,
            0 <= t,
    ;
    vstd::arithmetic::div_mod::lemma_div_pos_is_pos(x * t, q);
    vstd::arithmetic::div_mod::lemma_div_pos_is_pos(x * t / q + 32768, 65536);
}

/// The quarter wave at its full angle, `π/2`.
proof fn lemma_quarter_sine_top(n: int)
    requires
        n >= 1,
    ensures
        quarter_sine(n, n) == ONE,
{
    let h = HALF_PI_Q32 as int;
    assert(n * h == h * n) by (nonlinear_arith);
    vstd::arithmetic::div_mod::lemma_div_multiples_vanish(h, n);
    let q = UNIT_Q32 as int;
    assert(h * h == 45515516620391397904);
    assert(h * h / q == 10597407030);
    let x2 = 10597407030int;
    assert(x2 / 72 == 147186208);
    let t4 = q - 147186208;
    assert(x2 * t4 / q / 42 == 243672371);
    let t3 = q - 243672371;
    assert(x2 * t3 / q / 20 == 499808477);
    let t2 = q - 499808477;
    assert(x2 * t2 / q / 6 == 1560696507);
    let t1 = q - 1560696507;
    assert(horner(x2) == t1);
    assert(h * t1 / q == 4294982511);
    assert((4294982511int + 32768) / 65536 == 65536);
}

/// The table starts at zero.
pub proof fn lemma_sine_q_at_zero(n: int)
    requires
        n >= 1,
    ensures
        sine_q(0, n) == 0,
{
    vstd::arithmetic::div_mod::lemma_fundamental_div_mod_converse(0, n, 0, 0);
    assert(4 * 0 == 0int);
    assert(0 * (HALF_PI_Q32 as int) == 0int);
    let q = UNIT_Q32 as int;
    assert(0int * horner(0int * 0 / q) == 0);
    assert((0int + 32768) / 65536 == 0);
}

/// A quarter of the way round the table is the peak, `ONE`.
pub proof fn lemma_sine_q_at_quarter(n: int)
    requires
        n >= 1,
        n % 4 == 0,
    ensures
        sine_q(n / 4, n) == ONE,
{
    vstd::arithmetic::div_mod::lemma_fundamental_div_mod(n, 4);
    assert(4 * (n / 4) == n);
    vstd::arithmetic::div_mod::lemma_fundamental_div_mod_converse(n, n, 1, 0);
    lemma_quarter_sine_top(n);
}

/// The second half of the table is the first half negated, mirrored:
/// `sine_q(n - i, n) == -sine_q(i, n)`.
pub proof fn lemma_sine_q_odd(i: int, n: int)
    requires
        0 < i < n,
    ensures
        sine_q(n - i, n) == -sine_q(i, n),
{
    vstd::arithmetic::div_mod::lemma_fundamental_div_mod(4 * i, n);
    vstd::arithmetic::div_mod::lemma_mod_pos_bound(4 * i, n);
    let k = (4 * i) / n;
    let r = (4 * i) % n;
    assert(0 <= k < 4) by (nonlinear_arith)
        requires
            4 * i == n * k + r,
            0 <= r < n,
            0 < i < n,
    ;
    if r == 0 {
        assert(k >= 1) by (nonlinear_arith)
            requires
                4 * i == n * k + r,
                r == 0,
                0 < i,
                n > 0,
        ;
        assert(4 * (n - i) == (4 - k) * n + 0) by (nonlinear_arith)
            requires
                4 * i == n * k,
        ;
        vstd::arithmetic::div_mod::lemma_fundamental_div_mod_converse(4 * (n - i), n, 4 - k, 0);
        assert(quarter_sine(0, n) == 0) by {
            assert(0 * (HALF_PI_Q32 as int) / n == 0);
        }
    } else {
        assert(4 * (n - i) == (3 - k) * n + (n - r)) by (nonlinear_arith)
            requires
                4 * i == n * k + r,
        ;
        vstd::arithmetic::div_mod::lemma_fundamental_div_mod_converse(
            4 * (n - i),
            n,
            3 - k,
            n - r,
        );
    }
}

/// `sin(π/2 · u/n)` scaled by `ONE`.
fn quarter_sine_value(u: u128, n: u128) -> (r: i32)
    requires
        u <= n,
        1 <= n <= 0xffff_ffff_ffff_ffff,
    ensures
        r == quarter_sine(u as int, n as int),
        0 <= r <= ONE,
{
    let q = UNIT_Q32;
    proof {
        lemma_angle_range(u as int, n as int);
        assert(u * HALF_PI_Q32 <= 0xffff_ffff_ffff_ffff * HALF_PI_Q32) by (nonlinear_arith)
            requires
                u <= 0xffff_ffff_ffff_ffff,
        ;
    }
    let x: u128 = u * HALF_PI_Q32 / n;
    proof {
        lemma_square_range(x as int);
        assert(x * x <= HALF_PI_Q32 * HALF_PI_Q32) by (nonlinear_arith)
            requires
                x <= HALF_PI_Q32,
        ;
    }
    let x2: u128 = x * x / q;
    let t4: u128 = q - x2 / 72;
    proof {
        lemma_horner_step_range(x2 as int, t4 as int, 42);
    }
    let t3: u128 = q - (x2 * t4 / q) / 42;
    proof {
        lemma_horner_step_range(x2 as int, t3 as int, 20);
    }
    let t2: u128 = q - (x2 * t3 / q) / 20;
    proof {
        lemma_horner_step_range(x2 as int, t2 as int, 6);
    }
    let t1: u128 = q - (x2 * t2 / q) / 6;
    proof {
        lemma_horner_range(x2 as int);
        assert(t1 == horner(x2 as int));
        assert(x * t1 <= HALF_PI_Q32 * q) by (nonlinear_arith)
            requires
                x <= HALF_PI_Q32,
                t1 <= q,
        ;
        vstd::arithmetic::div_mod::lemma_div_is_ordered((x * t1) as int, HALF_PI_Q32 * q, q as int);
        vstd::arithmetic::div_mod::lemma_div_multiples_vanish(HALF_PI_Q32 as int, q as int);
    }
    let s: u128 = x * t1 / q;
    let r: u128 = (s + 32768) / 65536;
    if r > ONE as u128 {
        ONE as i32
    } else {
        r as i32
    }
}

/// `sin(2π·i/n)` scaled by `ONE`.
pub fn sine_value(i: usize, n: usize) -> (r: i32)
    requires
        i < n,
    ensures
        r == sine_q(i as int, n as int),
        -(ONE as int) <= r <= ONE,
{
    let n128 = n as u128;
    let k: u128 = (4 * (i as u128)) / n128;
    let rem: u128 = (4 * (i as u128)) % n128;
    let u: u128 = if k % 2 == 0 {
        rem
    } else {
        n128 - rem
    };
    let m = quarter_sine_value(u, n128);
    if k < 2 {
        m
    } else {
        -m
    }
}

} // verus!
