//! Fixed-point arithmetic for the netcode: saturating position sums, linear
//! interpolation with a rational parameter, and the jump curve.

use vstd::prelude::*;

verus! {

/// Clamp a mathematical integer into the range of an `i64`.
pub open spec fn sat_i64(v: int) -> int {
    if v < i64::MIN {
        i64::MIN as int
    } else if v > i64::MAX {
        i64::MAX as int
    } else {
        v
    }
}

/// Saturating sum of two positions or deltas in micro-units.
pub fn sat_add(a: i64, b: i64) -> (r: i64)
    ensures
        r as int == sat_i64(a + b),
{
    let wide: i128 = a as i128 + b as i128;
    if wide < i64::MIN as i128 {
        i64::MIN
    } else if wide > i64::MAX as i128 {
        i64::MAX
    } else {
        wide as i64
    }
}

/// Saturating difference of two positions or deltas in micro-units.
pub fn sat_sub(a: i64, b: i64) -> (r: i64)
    ensures
        r as int == sat_i64(a - b),
{
    let wide: i128 = a as i128 - b as i128;
    if wide < i64::MIN as i128 {
        i64::MIN
    } else if wide > i64::MAX as i128 {
        i64::MAX
    } else {
        wide as i64
    }
}

/// Linear interpolation between `a` and `b` with the rational parameter
/// `num / den`: the exact value `a + (num / den) * (b - a)`, with the division
/// rounding toward negative infinity.
pub open spec fn lerp_spec(a: int, b: int, num: int, den: int) -> int
    recommends
        den > 0,
{
    a + (num * (b - a)) / den
}

/// Linear interpolation between two positions, saturating at the `i64` range.
/// The parameter is the rational `num / den`; it is not clamped to `[0, 1]`,
/// so the result may extrapolate past `b`.
pub fn lerp(a: i64, b: i64, num: i64, den: i64) -> (r: i64)
    requires
        den > 0,
    ensures
        r as int == sat_i64(lerp_spec(a as int, b as int, num as int, den as int)),
{
    let diff: i128 = b as i128 - a as i128;
    proof {
        lemma_lerp_product_bounds(num as int, diff as int);
    }
    let prod: i128 = (num as i128) * diff;
    let quot: i128 = div_floor(prod, den as i128);
    let wide: i128 = a as i128 + quot;
    if wide < i64::MIN as i128 {
        i64::MIN
    } else if wide > i64::MAX as i128 {
        i64::MAX
    } else {
        wide as i64
    }
}

/// The product of a factor in the `i64` range and a factor no wider than the
/// difference of two `i64`s stays inside the `i128` range.
proof fn lemma_lerp_product_bounds(num: int, diff: int)
    requires
        -0x8000_0000_0000_0000 <= num <= 0x7fff_ffff_ffff_ffff,
        -0xffff_ffff_ffff_ffff <= diff <= 0xffff_ffff_ffff_ffff,
    ensures
        -0x7fff_ffff_ffff_ffff_8000_0000_0000_0000 <= num * diff
            <= 0x7fff_ffff_ffff_ffff_8000_0000_0000_0000,
{
    assert(-0x7fff_ffff_ffff_ffff_8000_0000_0000_0000 <= num * diff
        <= 0x7fff_ffff_ffff_ffff_8000_0000_0000_0000) by (nonlinear_arith)
        requires
            -0x8000_0000_0000_0000 <= num <= 0x7fff_ffff_ffff_ffff,
            -0xffff_ffff_ffff_ffff <= diff <= 0xffff_ffff_ffff_ffff,
    ;
}

/// Division of an `i128` by a positive divisor, rounding toward negative
/// infinity, matching `/` on mathematical integers. The quotient never grows
/// in magnitude beyond the dividend.
fn div_floor(n: i128, d: i128) -> (r: i128)
    requires
        d > 0,
        i128::MIN < n,
    ensures
        r as int == n as int / d as int,
        n >= 0 ==> 0 <= r <= n,
        n < 0 ==> n <= r <= 0,
{
    let neg: bool = n < 0;
    let mag: u128 = if neg {
        (-n) as u128
    } else {
        n as u128
    };
    let q: u128 = mag / (d as u128);
    let rem: u128 = mag % (d as u128);
    proof {
        vstd::arithmetic::div_mod::lemma_fundamental_div_mod(mag as int, d as int);
        vstd::arithmetic::div_mod::lemma_mod_bound(mag as int, d as int);
        assert(q as int <= (d as int) * (q as int)) by (nonlinear_arith)
            requires
                q as int >= 0,
                d as int >= 1,
        ;
    }
    if neg {
        if rem == 0 {
            proof {
                lemma_neg_exact_div(mag as int, d as int, q as int);
            }
            -(q as i128)
        } else {
            proof {
                lemma_neg_inexact_div(mag as int, d as int, q as int, rem as int);
            }
            -(q as i128) - 1
        }
    } else {
        q as i128
    }
}

/// When `d` divides `m` exactly, the floor quotient of `-m` is the negated
/// quotient of `m`.
proof fn lemma_neg_exact_div(m: int, d: int, q: int)
    requires
        d > 0,
        m >= 0,
        m == d * q,
    ensures
        (-m) / d == -q,
{
    vstd::arithmetic::div_mod::lemma_div_multiples_vanish(-q, d);
    assert(d * (-q) == -(d * q)) by (nonlinear_arith);
}

/// When `d` does not divide `m`, the floor quotient of `-m` is one below the
/// negated quotient of `m`.
proof fn lemma_neg_inexact_div(m: int, d: int, q: int, rem: int)
    requires
        d > 0,
        m >= 0,
        0 < rem < d,
        m == d * q + rem,
    ensures
        (-m) / d == -q - 1,
{
    assert((-q - 1) * d == -(d * q) - d) by (nonlinear_arith);
    assert(-m == (-q - 1) * d + (d - rem));
    vstd::arithmetic::div_mod::lemma_fundamental_div_mod_converse(-m, d, -q - 1, d - rem);
}

/// Height, in micro-units, of a jump as a function of the time in
/// milliseconds since the jump began: the parabola `3 t - 9 t^2` over seconds,
/// scaled to micro-units and milliseconds, and zero outside the jump window.
pub open spec fn jump_y_spec(t_ms: int) -> int {
    if 0 <= t_ms && t_ms <= crate::JUMP_WINDOW_MS {
        3000 * t_ms - 9 * t_ms * t_ms
    } else {
        0
    }
}

/// Evaluate the jump curve at `t_ms` milliseconds after the start of a jump.
pub fn jump_y_at(t_ms: i64) -> (r: i64)
    ensures
        r as int == jump_y_spec(t_ms as int),
{
    if t_ms < 0 || t_ms > crate::JUMP_WINDOW_MS {
        0
    } else {
        proof {
            assert(0 <= 9 * (t_ms as int) * (t_ms as int) <= 980_100) by (nonlinear_arith)
                requires
                    0 <= t_ms as int <= 330,
            ;
        }
        3000 * t_ms - 9 * t_ms * t_ms
    }
}

/// Laws of linear interpolation: the parameter `0` yields the start point,
/// `1` yields the end point, and `1/2` yields the midpoint (with the
/// midpoint division rounding toward negative infinity).
pub proof fn lemma_lerp_laws(a: int, b: int, den: int)
    requires
        den > 0,
    ensures
        lerp_spec(a, b, 0, den) == a,
        lerp_spec(a, b, den, den) == b,
        lerp_spec(a, b, 1, 2) == (a + b) / 2,
{
    vstd::arithmetic::div_mod::lemma_div_multiples_vanish(b - a, den);
    assert(0 * (b - a) == 0) by (nonlinear_arith);
    vstd::arithmetic::div_mod::lemma_fundamental_div_mod_converse(0, den, 0, 0);
    // midpoint: a + (b - a) / 2 == (a + b) / 2
    assert(1 * (b - a) == b - a) by (nonlinear_arith);
    let q = (b - a) / 2;
    let r = (b - a) % 2;
    vstd::arithmetic::div_mod::lemma_fundamental_div_mod(b - a, 2);
    vstd::arithmetic::div_mod::lemma_mod_bound(b - a, 2);
    assert((a + q) * 2 + r == a + b) by (nonlinear_arith)
        requires
            b - a == 2 * q + r,
    ;
    vstd::arithmetic::div_mod::lemma_fundamental_div_mod_converse(a + b, 2, a + q, r);
}

/// Laws of the jump curve: the height is zero before the jump and after the
/// jump window, zero at the start of the jump, positive strictly inside the
/// window (in particular at the apex region), and at the end of the window it
/// has decayed below the move-discrepancy threshold.
pub proof fn lemma_jump_curve(t_ms: int)
    ensures
        crate::JUMP_WINDOW_MS == 330,
        t_ms < 0 || t_ms > crate::JUMP_WINDOW_MS ==> jump_y_spec(t_ms) == 0,
        jump_y_spec(0) == 0,
        0 < t_ms <= crate::JUMP_WINDOW_MS ==> jump_y_spec(t_ms) > 0,
        jump_y_spec(165) == 249_975,
        0 < jump_y_spec(crate::JUMP_WINDOW_MS as int) < crate::MOVE_EPSILON_MICROS as int,
{
    if 0 < t_ms <= crate::JUMP_WINDOW_MS {
        assert(3000 * t_ms - 9 * t_ms * t_ms > 0) by (nonlinear_arith)
            requires
                0 < t_ms <= 330,
        ;
    }
    assert(3000 * 165 - 9 * 165 * 165 == 249_975) by (nonlinear_arith);
    assert(3000 * 330 - 9 * 330 * 330 == 9_900) by (nonlinear_arith);
}

} // verus!
