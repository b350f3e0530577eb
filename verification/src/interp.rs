//! Fixed-point interpolation for the leaf animations: linear blending,
//! full-turn rotation, and cubic Bezier evaluation.
//!
//! Positions, alpha values and angles are plain integers in caller-chosen
//! units.  A leaf's progress is the exact rational `now / total` of its
//! timer; every sample below is the mathematical result of interpolating
//! with that rational, with the division truncated toward zero.

use vstd::arithmetic::div_mod::{lemma_div_is_ordered, lemma_div_by_multiple, lemma_div_pos_is_pos};
use vstd::arithmetic::mul::{lemma_mul_inequality, lemma_mul_nonnegative};
use vstd::prelude::*;

verus! {

/// Largest total duration (in milliseconds) a leaf timer may carry, so
/// that interpolation arithmetic stays exact in machine words.
pub const MAX_DUR: u64 = 0x100_0000;

/// Largest magnitude of an animation parameter (a coordinate or an
/// alpha value), so that interpolation arithmetic stays exact.
pub const MAX_POS: i64 = 0x8000_0000;

/// Integer division truncated toward zero, for a positive divisor.
pub open spec fn div_trunc(num: int, den: int) -> int {
    if num >= 0 {
        num / den
    } else {
        -((-num) / den)
    }
}

/// The linear blend of `a` and `b` at progress `now / total`, truncated
/// toward `a`; `a` itself when the timer has no duration.
pub open spec fn lin_spec(a: int, b: int, now: int, total: int) -> int {
    if total <= 0 {
        a
    } else if b >= a {
        a + (b - a) * now / total
    } else {
        a - (a - b) * now / total
    }
}

/// The angle, in milli-degrees, of a full turn at progress `now / total`.
pub open spec fn turn_spec(now: int, total: int) -> int {
    if total <= 0 {
        0
    } else {
        360_000 * now / total
    }
}

/// The cubic Bezier polynomial in the Bernstein basis, scaled by
/// `total^3`: with `r = total - now`, the weights are `r^3`,
/// `3*now*r^2`, `3*now^2*r` and `now^3`.
pub open spec fn bez_num(p0: int, p1: int, p2: int, p3: int, now: int, total: int) -> int {
    let r = total - now;
    let rr = r * r;
    let nn = now * now;
    p0 * (rr * r) + p1 * (3 * now * rr) + p2 * (3 * nn * r) + p3 * (nn * now)
}

/// One coordinate of the cubic Bezier through `p0..p3` at progress
/// `now / total`, truncated toward zero; `p0` when the timer has no
/// duration.
pub open spec fn bez_spec(p0: int, p1: int, p2: int, p3: int, now: int, total: int) -> int {
    if total <= 0 {
        p0
    } else {
        div_trunc(bez_num(p0, p1, p2, p3, now, total), total * total * total)
    }
}

/// The linear blend, exactly as `lin_spec` states it.
pub fn linear(a: i64, b: i64, now: u64, total: u64) -> (r: i64)
    requires
        -MAX_POS <= a <= MAX_POS,
        -MAX_POS <= b <= MAX_POS,
        now <= total,
        total <= MAX_DUR,
    ensures
        r == lin_spec(a as int, b as int, now as int, total as int),
        -MAX_POS <= r <= MAX_POS,
{
    if total == 0 {
        a
    } else if b >= a {
        let d: i64 = b - a;
        proof {
            assert(d * (now as i64) <= d * (total as i64)) by {
                lemma_mul_inequality(now as int, total as int, d as int);
            }
            assert(d * (total as i64) <= 0x1_0000_0000i64 * 0x100_0000) by {
                lemma_mul_inequality(d as int, 0x1_0000_0000, total as int);
                lemma_mul_inequality(total as int, 0x100_0000, 0x1_0000_0000);
            }
            lemma_mul_nonnegative(d as int, now as int);
        }
        let q: i64 = d * (now as i64) / (total as i64);
        proof {
            lemma_div_pos_is_pos(d as int * now as int, total as int);
            assert(q <= d) by {
                lemma_div_is_ordered(d as int * now as int, d as int * total as int, total as int);
                lemma_div_by_multiple(d as int, total as int);
            }
        }
        a + q
    } else {
        let d: i64 = a - b;
        proof {
            assert(d * (now as i64) <= d * (total as i64)) by {
                lemma_mul_inequality(now as int, total as int, d as int);
            }
            assert(d * (total as i64) <= 0x1_0000_0000i64 * 0x100_0000) by {
                lemma_mul_inequality(d as int, 0x1_0000_0000, total as int);
                lemma_mul_inequality(total as int, 0x100_0000, 0x1_0000_0000);
            }
            lemma_mul_nonnegative(d as int, now as int);
        }
        let q: i64 = d * (now as i64) / (total as i64);
        proof {
            lemma_div_pos_is_pos(d as int * now as int, total as int);
            assert(q <= d) by {
                lemma_div_is_ordered(d as int * now as int, d as int * total as int, total as int);
                lemma_div_by_multiple(d as int, total as int);
            }
        }
        a - q
    }
}

/// The full-turn angle, exactly as `turn_spec` states it.
pub fn turn(now: u64, total: u64) -> (r: i64)
    requires
        now <= total,
        total <= MAX_DUR,
    ensures
        r == turn_spec(now as int, total as int),
        0 <= r <= 360_000,
{
    if total == 0 {
        0
    } else {
        proof {
            assert(360_000 * (now as int) <= 360_000 * 0x100_0000) by {
                lemma_mul_inequality(now as int, 0x100_0000, 360_000);
            }
            lemma_div_pos_is_pos(360_000 * (now as int), total as int);
            assert(360_000 * (now as int) / (total as int) <= 360_000) by {
                lemma_mul_inequality(now as int, total as int, 360_000);
                lemma_div_is_ordered(360_000 * (now as int), 360_000 * (total as int), total as int);
                lemma_div_by_multiple(360_000, total as int);
            }
        }
        (360_000u64 * now / total) as i64
    }
}

/// The endpoints of the cubic Bezier: at progress zero it sits exactly
/// on the first control coordinate, at full progress exactly on the
/// last.
pub proof fn lemma_bez_ends(a0: int, a1: int, a2: int, a3: int, t: int)
    requires
        t >= 1,
    ensures
        bez_spec(a0, a1, a2, a3, 0, t) == a0,
        bez_spec(a0, a1, a2, a3, t, t) == a3,
{
    let den = t * t * t;
    assert(den >= 1) by (nonlinear_arith)
        requires
            t >= 1,
            den == t * t * t,
    ;
    assert(bez_num(a0, a1, a2, a3, 0, t) == a0 * den) by {
        assert((t - 0) * (t - 0) == t * t) by (nonlinear_arith);
        assert(a0 * ((t * t) * (t - 0)) == a0 * den) by (nonlinear_arith)
            requires
                den == t * t * t,
        ;
        assert(a1 * (3 * 0 * ((t - 0) * (t - 0))) == 0) by (nonlinear_arith);
        assert(a2 * (3 * (0 * 0) * (t - 0)) == 0) by (nonlinear_arith);
        assert(a3 * ((0 * 0) * 0) == 0) by (nonlinear_arith);
    }
    assert(bez_num(a0, a1, a2, a3, t, t) == a3 * den) by {
        assert(a0 * (((t - t) * (t - t)) * (t - t)) == 0) by (nonlinear_arith);
        assert(a1 * (3 * t * ((t - t) * (t - t))) == 0) by (nonlinear_arith);
        assert(a2 * (3 * (t * t) * (t - t)) == 0) by (nonlinear_arith);
        assert(a3 * ((t * t) * t) == a3 * den) by (nonlinear_arith)
            requires
                den == t * t * t,
        ;
    }
    lemma_div_trunc_multiple(a0, den);
    lemma_div_trunc_multiple(a3, den);
}

/// Dividing an exact multiple back out, under truncation toward zero.
pub proof fn lemma_div_trunc_multiple(a: int, den: int)
    requires
        den >= 1,
    ensures
        div_trunc(a * den, den) == a,
{
    if a >= 0 {
        lemma_div_pos_is_pos(a * den, den);
        vstd::arithmetic::div_mod::lemma_div_by_multiple(a, den);
    } else {
        vstd::arithmetic::mul::lemma_mul_unary_negation(a, den);
        assert(a * den < 0) by (nonlinear_arith)
            requires
                a < 0,
                den >= 1,
        ;
        vstd::arithmetic::div_mod::lemma_div_by_multiple(-a, den);
    }
}

/// One coordinate of the cubic Bezier, exactly as `bez_spec` states it.
pub fn bezier(p0: i64, p1: i64, p2: i64, p3: i64, now: u64, total: u64) -> (res: i64)
    requires
        -MAX_POS <= p0 <= MAX_POS,
        -MAX_POS <= p1 <= MAX_POS,
        -MAX_POS <= p2 <= MAX_POS,
        -MAX_POS <= p3 <= MAX_POS,
        now <= total,
        total <= MAX_DUR,
    ensures
        res == bez_spec(p0 as int, p1 as int, p2 as int, p3 as int, now as int, total as int),
        -MAX_POS <= res <= MAX_POS,
{
    if total == 0 {
        return p0;
    }
    let n: i128 = now as i128;
    let t: i128 = total as i128;
    let r: i128 = t - n;
    proof {
        assert(0 <= r * r <= 0x1_0000_0000_0000 && 0 <= n * n <= 0x1_0000_0000_0000 && 0 <= t * t
            <= 0x1_0000_0000_0000) by (nonlinear_arith)
            requires
                0 <= n <= t,
                r == t - n,
                t <= 0x100_0000,
        ;
    }
    let rr: i128 = r * r;
    let nn: i128 = n * n;
    let tt: i128 = t * t;
    proof {
        assert(0 <= rr * r <= 0x1_0000_0000_0000_0000_0000 && 0 <= 3 * n * rr
            <= 0x3_0000_0000_0000_0000_0000 && 0 <= 3 * nn * r <= 0x3_0000_0000_0000_0000_0000 && 0
            <= nn * n <= 0x1_0000_0000_0000_0000_0000 && 1 <= tt * t
            <= 0x1_0000_0000_0000_0000_0000) by (nonlinear_arith)
            requires
                0 <= n <= t,
                r == t - n,
                t <= 0x100_0000,
                1 <= t,
                rr == r * r,
                nn == n * n,
                tt == t * t,
        ;
    }
    let w0: i128 = rr * r;
    let w1: i128 = 3 * n * rr;
    let w2: i128 = 3 * nn * r;
    let w3: i128 = nn * n;
    let den: i128 = tt * t;
    proof {
        assert(w0 + w1 + w2 + w3 == den) by (nonlinear_arith)
            requires
                r == t - n,
                rr == r * r,
                nn == n * n,
                tt == t * t,
                w0 == rr * r,
                w1 == 3 * n * rr,
                w2 == 3 * nn * r,
                w3 == nn * n,
                den == tt * t,
        ;
        lemma_mul_inequality(p0 as int, MAX_POS as int, w0 as int);
        lemma_mul_inequality(-(MAX_POS as int), p0 as int, w0 as int);
        lemma_mul_inequality(p1 as int, MAX_POS as int, w1 as int);
        lemma_mul_inequality(-(MAX_POS as int), p1 as int, w1 as int);
        lemma_mul_inequality(p2 as int, MAX_POS as int, w2 as int);
        lemma_mul_inequality(-(MAX_POS as int), p2 as int, w2 as int);
        lemma_mul_inequality(p3 as int, MAX_POS as int, w3 as int);
        lemma_mul_inequality(-(MAX_POS as int), p3 as int, w3 as int);
        assert((MAX_POS as int) * w0 + (MAX_POS as int) * w1 + (MAX_POS as int) * w2 + (
        MAX_POS as int) * w3 == (MAX_POS as int) * den && -((MAX_POS as int) * den) == (-(
        MAX_POS as int)) * w0 + (-(MAX_POS as int)) * w1 + (-(MAX_POS as int)) * w2 + (-(
        MAX_POS as int)) * w3) by (nonlinear_arith)
            requires
                w0 + w1 + w2 + w3 == den,
        ;
        assert((MAX_POS as int) * den <= 0x8000_0000 * 0x1_0000_0000_0000_0000_0000) by {
            lemma_mul_inequality(den as int, 0x1_0000_0000_0000_0000_0000, MAX_POS as int);
        }
    }
    let num: i128 = (p0 as i128) * w0 + (p1 as i128) * w1 + (p2 as i128) * w2 + (p3 as i128) * w3;
    let q: i128 = if num >= 0 {
        proof {
            lemma_div_pos_is_pos(num as int, den as int);
            assert((num as int) / (den as int) <= MAX_POS) by {
                lemma_div_is_ordered(num as int, (MAX_POS as int) * den, den as int);
                lemma_div_by_multiple(MAX_POS as int, den as int);
            }
        }
        num / den
    } else {
        proof {
            lemma_div_pos_is_pos(-(num as int), den as int);
            assert((-(num as int)) / (den as int) <= MAX_POS) by {
                lemma_div_is_ordered(-(num as int), (MAX_POS as int) * den, den as int);
                lemma_div_by_multiple(MAX_POS as int, den as int);
            }
        }
        -((-num) / den)
    };
    q as i64
}

} // verus!
