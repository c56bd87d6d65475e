use vstd::prelude::*;

verus! {

use vstd::arithmetic::div_mod::lemma_div_is_ordered;

/// One in Q60 fixed point: values scale by 2^60.
pub const Q: u128 = 1152921504606846976;

/// pi/2 in Q60, rounded to nearest.
pub const HALF_PI_Q: u128 = 1811004864519280711;

/// pi/4 in Q60, rounded to nearest.
pub const QUARTER_PI_Q: u128 = 905502432259640355;

/// tan(pi/8) in Q60, rounded to nearest.
pub const TAN_PI_8_Q: u128 = 477555723559750801;

/// pi * 2^120 / (360 * 10^9), rounded to nearest: nanodegrees of a full
/// angle to Q60 radians of the half angle.
pub const RAD_FACTOR: u128 = 11599702518066045441185768;

/// 360 * 10^9 * 2^20 / pi, rounded to nearest: Q60 radians of a half
/// angle back to nanodegrees of the full angle, after a 2^80 shift.
pub const DEG_FACTOR: u128 = 120157958597419615;

pub const TWO_63: u128 = 9223372036854775808;

pub const TWO_79: u128 = 604462909807314587353088;

pub const TWO_80: u128 = 1208925819614629174706176;

/// Q60 product: multiply and drop the scale.
pub open spec fn qmul(a: int, b: int) -> int {
    (a * b) / (Q as int)
}

/// Fixed-point multiply, exact per `qmul`; stays within one for inputs
/// within one.
fn qmul_e(a: u128, b: u128) -> (r: u128)
    requires
        a <= Q,
        b <= Q,
    ensures
        r == qmul(a as int, b as int),
        r <= a,
        r <= b,
        r <= Q,
{
    proof {
        assert(a * b <= Q * Q) by (nonlinear_arith)
            requires
                a <= Q,
                b <= Q,
        ;
        assert(a * b <= a * Q) by (nonlinear_arith)
            requires
                b <= Q,
                0 <= a,
        ;
        assert(a * b <= b * Q) by (nonlinear_arith)
            requires
                a <= Q,
                0 <= b,
        ;
        lemma_div_is_ordered((a * b) as int, (a * Q) as int, Q as int);
        lemma_div_is_ordered((a * b) as int, (b * Q) as int, Q as int);
        assert((a as int * Q as int) / (Q as int) == a as int) by (nonlinear_arith)
            requires
                Q > 0,
        ;
        assert((b as int * Q as int) / (Q as int) == b as int) by (nonlinear_arith)
            requires
                Q > 0,
        ;
    }
    (a * b) / Q
}

/// Sine and cosine of `x` (Q60 radians in [0, pi/2]), by Taylor pairs
/// on [0, pi/4] and the complement identity above it, clamped at one.
pub open spec fn spec_sin_cos(x: int) -> (int, int) {
    let swap = 2 * x > HALF_PI_Q;
    let w = if swap {
        HALF_PI_Q - x
    } else {
        x
    };
    let x2 = qmul(w, w);
    let x4 = qmul(x2, x2);
    let p1 = w;
    let p5 = qmul(p1, x4) / 120;
    let p9 = qmul(p5, x4) / 3024;
    let p13 = qmul(p9, x4) / 17160;
    let s = (p1 - qmul(p1, x2) / 6) + (p5 - qmul(p5, x2) / 42) + (p9 - qmul(p9, x2) / 110) + (p13
        - qmul(p13, x2) / 210);
    let q0 = Q as int;
    let q4 = qmul(q0, x4) / 24;
    let q8 = qmul(q4, x4) / 1680;
    let q12 = qmul(q8, x4) / 11880;
    let c = (q0 - qmul(q0, x2) / 2) + (q4 - qmul(q4, x2) / 30) + (q8 - qmul(q8, x2) / 90) + (q12
        - qmul(q12, x2) / 182);
    let sc = if s > Q {
        Q as int
    } else {
        s
    };
    let cc = if c > Q {
        Q as int
    } else {
        c
    };
    if swap {
        (cc, sc)
    } else {
        (sc, cc)
    }
}

#[verifier::rlimit(100)]
fn sin_cos(x: u128) -> (r: (u128, u128))
    requires
        x <= HALF_PI_Q,
    ensures
        (r.0 as int, r.1 as int) == spec_sin_cos(x as int),
        r.0 <= Q,
        r.1 <= Q,
{
    let swap = 2 * x > HALF_PI_Q;
    let w = if swap {
        HALF_PI_Q - x
    } else {
        x
    };
    assert(w <= Q);
    let x2 = qmul_e(w, w);
    let x4 = qmul_e(x2, x2);
    let p1 = w;
    let p5 = qmul_e(p1, x4) / 120;
    let p9 = qmul_e(p5, x4) / 3024;
    let p13 = qmul_e(p9, x4) / 17160;
    let s = (p1 - qmul_e(p1, x2) / 6) + (p5 - qmul_e(p5, x2) / 42) + (p9 - qmul_e(p9, x2) / 110) + (
    p13 - qmul_e(p13, x2) / 210);
    let q0 = Q;
    let q4 = qmul_e(q0, x4) / 24;
    let q8 = qmul_e(q4, x4) / 1680;
    let q12 = qmul_e(q8, x4) / 11880;
    let c = (q0 - qmul_e(q0, x2) / 2) + (q4 - qmul_e(q4, x2) / 30) + (q8 - qmul_e(q8, x2) / 90) + (
    q12 - qmul_e(q12, x2) / 182);
    let sc = if s > Q {
        Q
    } else {
        s
    };
    let cc = if c > Q {
        Q
    } else {
        c
    };
    if swap {
        (cc, sc)
    } else {
        (sc, cc)
    }
}

/// Arctangent of `t` in Q60 (intended for t at most about tan(pi/8)),
/// by paired Taylor terms, clamped at pi/4.
pub open spec fn spec_atan_tay(t: int) -> int {
    let t2 = qmul(t, t);
    let t4 = qmul(t2, t2);
    let r0 = t;
    let r1 = qmul(r0, t4);
    let r2 = qmul(r1, t4);
    let r3 = qmul(r2, t4);
    let r4 = qmul(r3, t4);
    let a = (r0 - qmul(r0, t2) / 3) + (r1 / 5 - qmul(r1, t2) / 7) + (r2 / 9 - qmul(r2, t2) / 11) + (
    r3 / 13 - qmul(r3, t2) / 15) + (r4 / 17 - qmul(r4, t2) / 19);
    if a > QUARTER_PI_Q {
        QUARTER_PI_Q as int
    } else {
        a
    }
}

#[verifier::rlimit(100)]
fn atan_tay(t: u128) -> (r: u128)
    requires
        t <= Q,
    ensures
        r == spec_atan_tay(t as int),
        r <= QUARTER_PI_Q,
{
    let t2 = qmul_e(t, t);
    let t4 = qmul_e(t2, t2);
    let r0 = t;
    let r1 = qmul_e(r0, t4);
    let r2 = qmul_e(r1, t4);
    let r3 = qmul_e(r2, t4);
    let r4 = qmul_e(r3, t4);
    let a = (r0 - qmul_e(r0, t2) / 3) + (r1 / 5 - qmul_e(r1, t2) / 7) + (r2 / 9 - qmul_e(r2, t2)
        / 11) + (r3 / 13 - qmul_e(r3, t2) / 15) + (r4 / 17 - qmul_e(r4, t2) / 19);
    if a > QUARTER_PI_Q {
        QUARTER_PI_Q
    } else {
        a
    }
}

/// Arctangent of the fraction `a / b`, for 0 <= a <= b: scaled down
/// until the denominator is below 2^63, then folded through
/// atan(t) = pi/4 - atan((1 - t) / (1 + t)) when t is above tan(pi/8).
pub open spec fn spec_atan_frac(a: int, b: int) -> int
    decreases b,
{
    if b >= TWO_63 {
        spec_atan_frac(a / 2, b / 2)
    } else {
        let t = (a * (Q as int)) / b;
        if t > TAN_PI_8_Q {
            QUARTER_PI_Q - spec_atan_tay(((Q - t) * (Q as int)) / ((Q + t) as int))
        } else {
            spec_atan_tay(t)
        }
    }
}

fn atan_frac(a: u128, b: u128) -> (r: u128)
    requires
        1 <= b,
        a <= b,
    ensures
        r == spec_atan_frac(a as int, b as int),
        r <= QUARTER_PI_Q,
    decreases b,
{
    if b >= TWO_63 {
        atan_frac(a / 2, b / 2)
    } else {
        proof {
            assert(a * Q <= b * Q) by (nonlinear_arith)
                requires
                    a <= b,
                    0 <= Q,
            ;
            lemma_div_is_ordered((a * Q) as int, (b * Q) as int, b as int);
            assert((b as int * Q as int) / (b as int) == Q as int) by (nonlinear_arith)
                requires
                    b > 0,
            ;
        }
        let t = (a * Q) / b;
        assert(t <= Q);
        if t > TAN_PI_8_Q {
            proof {
                assert((Q - t) * Q <= Q * Q) by (nonlinear_arith)
                    requires
                        t <= Q,
                ;
                lemma_div_is_ordered(((Q - t) * Q) as int, (Q * Q) as int, (Q + t) as int);
                lemma_div_is_ordered((Q * Q) as int, (Q * (Q + t)) as int, (Q + t) as int);
                assert(Q * Q <= Q * (Q + t)) by (nonlinear_arith)
                    requires
                        t >= 0,
                ;
                assert((Q as int * (Q + t) as int) / ((Q + t) as int) == Q as int) by (nonlinear_arith)
                    requires
                        Q + t > 0,
                ;
            }
            let u = ((Q - t) * Q) / (Q + t);
            assert(u <= Q);
            QUARTER_PI_Q - atan_tay(u)
        } else {
            atan_tay(t)
        }
    }
}

/// Arctangent of `y / x` on the closed first quadrant, in Q60 radians:
/// 0 for a zero numerator, pi/2 for a zero denominator.
pub open spec fn spec_atan2(y: int, x: int) -> int {
    if y == 0 {
        0
    } else if x == 0 {
        HALF_PI_Q as int
    } else if y <= x {
        spec_atan_frac(y, x)
    } else {
        (HALF_PI_Q as int) - spec_atan_frac(x, y)
    }
}

fn atan2_q(y: u128, x: u128) -> (r: u128)
    ensures
        r == spec_atan2(y as int, x as int),
        r <= HALF_PI_Q,
{
    if y == 0 {
        0
    } else if x == 0 {
        HALF_PI_Q
    } else if y <= x {
        atan_frac(y, x)
    } else {
        HALF_PI_Q - atan_frac(x, y)
    }
}

/// The complementary field of view: for a full angle `theta` in
/// nanodegrees and a positive scale `n / d`, the full angle
/// 2 * atan(tan(theta / 2) * n / d) in nanodegrees, computed as
/// atan2(sin(theta / 2) * n, cos(theta / 2) * d) in Q60 radians.
pub open spec fn spec_convert_nanos(theta: int, n: int, d: int) -> int {
    let x0 = (theta * (RAD_FACTOR as int)) / (Q as int);
    let x = if x0 > HALF_PI_Q {
        HALF_PI_Q as int
    } else {
        x0
    };
    let sc = spec_sin_cos(x);
    let z = spec_atan2(sc.0 * n, sc.1 * d);
    (z * (DEG_FACTOR as int) + (TWO_79 as int)) / (TWO_80 as int)
}

/// Runs the conversion on nano-scaled inputs; the result is exactly
/// `spec_convert_nanos` and never above one eighty degrees plus one
/// nanodegree of rounding headroom.
pub fn convert_nanos(theta: i64, n: i64, d: i64) -> (r: i64)
    requires
        1 <= theta <= 180_000_000_000,
        1 <= n,
        1 <= d,
    ensures
        r == spec_convert_nanos(theta as int, n as int, d as int),
        0 <= r <= 180_000_000_001,
{
    let th = theta as u128;
    let x0 = (th * RAD_FACTOR) / Q;
    let x = if x0 > HALF_PI_Q {
        HALF_PI_Q
    } else {
        x0
    };
    let (s, c) = sin_cos(x);
    proof {
        assert(s * (n as u128) <= Q * 9223372036854775807) by (nonlinear_arith)
            requires
                s <= Q,
                0 < (n as u128) <= 9223372036854775807,
        ;
        assert(c * (d as u128) <= Q * 9223372036854775807) by (nonlinear_arith)
            requires
                c <= Q,
                0 < (d as u128) <= 9223372036854775807,
        ;
    }
    let y0 = s * (n as u128);
    let x1 = c * (d as u128);
    let z = atan2_q(y0, x1);
    proof {
        assert(z * DEG_FACTOR <= HALF_PI_Q * DEG_FACTOR) by (nonlinear_arith)
            requires
                z <= HALF_PI_Q,
                DEG_FACTOR > 0,
        ;
        lemma_div_is_ordered(
            (z * DEG_FACTOR + TWO_79) as int,
            (HALF_PI_Q * DEG_FACTOR + TWO_79) as int,
            TWO_80 as int,
        );
    }
    let out = (z * DEG_FACTOR + TWO_79) / TWO_80;
    assert(out <= 180_000_000_001);
    out as i64
}

} // verus!
