//! Boosts and cuts of the equalizer.
use vstd::arithmetic::power2::{lemma2_to64, lemma2_to64_rest, pow2};
use vstd::prelude::*;

use super::biquad::Taps;
use super::eq::peak_taps;
use crate::accuracy::{
    exact, large, lemma_eps, lemma_factor_grows, lemma_group, lemma_limits, lemma_minus_error,
    lemma_norm_product, lemma_over_error, lemma_plus_error, lemma_quotient, lemma_real_product,
    lemma_share, lemma_spread, lemma_times_error, norm, tiny,
};
use crate::arith::{lemma_pow2_monotone, lemma_pow2_sum};
use crate::numbers::{MINUS_TWO, TWO};
use crate::single::Single;

verus! {

/// The bound `e` on relative errors is no less than that of one rounding, and small.
pub open spec fn fine(e: real) -> bool {
    0x100_0000 as real * e >= 1 as real && 64 as real * e <= 1 as real
}

/// What terms and their products may amount to here, well below the largest numbers.
#[verifier::opaque]
pub open spec fn broad() -> real {
    pow2(120) as real
}

/// How much larger than the other one of two leading coefficients may be.
pub open spec fn span() -> real {
    2 as real * broad()
}

/// There is much room below the largest numbers, and above the smallest.
pub proof fn lemma_wide()
    ensures
        broad() >= 0x1_0000_0000_0000_0000 as real,
        large() >= 64 as real * broad(),
        0x1_0000_0000_0000_0000 as real * (0x100_0000 as real * tiny()) <= 1 as real,
        (0x100_0000 as real * tiny()) * span() <= 1 as real,
        tiny() > 0 as real,
{
    reveal(large);
    reveal(tiny);
    reveal(broad);
    lemma_limits();
    lemma2_to64();
    lemma2_to64_rest();
    lemma_pow2_monotone(64, 120);
    lemma_pow2_sum(7, 120);
    lemma_pow2_sum(29, 120);
    let b: real = broad();
    let u: real = pow2(149) as real;
    let t: real = tiny();
    lemma_real_product(pow2(7) as int, pow2(120) as int);
    lemma_real_product(pow2(29) as int, pow2(120) as int);
    assert(u == 0x2000_0000 as real * b);
    lemma_quotient(1 as real, 2 as real * u);
    assert(t * (2 as real * u) == 1 as real);
    // so one is `2^30 * broad()` times the smallest
    let tb: real = t * b;
    assert(t * (2 as real * u) == 0x4000_0000 as real * tb) by (nonlinear_arith)
        requires
            u == 0x2000_0000 as real * b,
            tb == t * b,
    ;
    assert((0x100_0000 as real * t) * (2 as real * b) == 0x200_0000 as real * tb)
        by (nonlinear_arith)
        requires
            tb == t * b,
    ;
    lemma_factor_grows(0x1_0000_0000_0000_0000 as real, b, 0x100_0000 as real * t);
    assert((0x100_0000 as real * t) * b == 0x100_0000 as real * tb) by (nonlinear_arith)
        requires
            tb == t * b,
    ;
}

/// What is at least one over the span is no less than what rounding the smallest may add.
proof fn lemma_above_tiny(s: real)
    requires
        span() * s >= 1 as real,
    ensures
        0x100_0000 as real * tiny() <= s,
{
    lemma_wide();
    let b: real = span();
    let t: real = 0x100_0000 as real * tiny();
    assert(t <= s) by (nonlinear_arith)
        requires
            t * b <= 1 as real,
            b * s >= 1 as real,
            b > 0 as real,
    ;
}

/// The quotient of two numbers that are near to `x` and `y` is near to the quotient of these.
proof fn lemma_exact_ratio(xx: real, yy: real, x: real, y: real, m: real, e: real)
    requires
        y > 0 as real,
        m > 0 as real,
        e > 0 as real,
        64 as real * e <= 1 as real,
        norm(xx - x) <= e * m,
        norm(yy - y) <= e * y,
        norm(x) <= 4 as real * m,
    ensures
        yy > 0 as real,
        norm(xx / yy - x / y) <= 6 as real * (e * (m / y)),
        norm(x / y) <= 4 as real * (m / y),
        norm(xx / yy) <= 5 as real * (m / y),
        m / y > 0 as real,
{
    lemma_factor_grows(64 as real * e, 1 as real, y);
    lemma_group(64 as real, e, y);
    assert(1 as real * y == y) by (nonlinear_arith);
    assert(64 as real * yy >= 63 as real * y);
    let q: real = xx / yy;
    let r: real = x / y;
    let s: real = m / y;
    lemma_quotient(xx, yy);
    lemma_quotient(x, y);
    lemma_quotient(m, y);
    assert(s > 0 as real) by (nonlinear_arith)
        requires
            s * y == m,
            m > 0 as real,
            y > 0 as real,
    ;
    // the size of the exact quotient
    lemma_norm_product(r, y);
    lemma_spread(norm(r), 4 as real * s, y);
    lemma_group(4 as real, s, y);
    assert(norm(r) <= 4 as real * s) by (nonlinear_arith)
        requires
            norm(r) * y <= (4 as real * s) * y,
            y > 0 as real,
    ;
    // the difference, times the denominator
    let off: real = yy - y;
    lemma_spread(q, r, yy);
    lemma_spread(yy, y, r);
    let a: real = xx - x;
    assert((q - r) * yy == a - r * off);
    lemma_norm_product(r, off);
    lemma_norm_product(q - r, yy);
    let g: real = norm(q - r);
    let em: real = e * m;
    lemma_factor_grows(norm(off), e * y, norm(r));
    lemma_group(norm(r), e, y);
    lemma_factor_grows(norm(x), 4 as real * m, e);
    assert(norm(r) * (e * y) == (norm(r) * y) * e);
    assert((norm(r) * y) * e == e * norm(x)) by {
        assert(norm(r) * y == norm(x));
        assert(norm(x) * e == e * norm(x)) by (nonlinear_arith);
    }
    assert(e * (4 as real * m) == 4 as real * em) by (nonlinear_arith)
        requires
            em == e * m,
    ;
    assert(g * yy <= 5 as real * em);
    let es: real = e * s;
    lemma_group(e, s, y);
    assert(em == es * y);
    lemma_factor_grows(63 as real * y, 64 as real * yy, g);
    assert(g * (63 as real * y) == (63 as real * g) * y && g * (64 as real * yy) == 64 as real * (g
        * yy)) by (nonlinear_arith);
    assert((63 as real * g) * y <= (320 as real * es) * y) by {
        assert((320 as real * es) * y == 320 as real * (es * y)) by (nonlinear_arith);
    }
    assert(63 as real * g <= 320 as real * es) by (nonlinear_arith)
        requires
            (63 as real * g) * y <= (320 as real * es) * y,
            y > 0 as real,
    ;
    lemma_factor_grows(0 as real, e, s);
    assert(0 as real * s == 0 as real) by (nonlinear_arith);
    lemma_factor_grows(64 as real * e, 1 as real, s);
    lemma_group(64 as real, e, s);
    assert(1 as real * s == s) by (nonlinear_arith);
}

/// The rounded quotient of two numbers that are near to `x` and `y` is near to the quotient of
/// these.
pub proof fn lemma_ratio_near(p: Single, q: Single, x: real, y: real, m: real, e: real)
    requires
        p.finite(),
        q.finite(),
        y > 0 as real,
        m > 0 as real,
        fine(e),
        norm(exact(p) - x) <= e * m,
        norm(exact(q) - y) <= e * y,
        norm(x) <= 4 as real * m,
        m <= span() * y,
        y <= span() * m,
    ensures
        p.over(q).finite(),
        norm(exact(p.over(q)) - x / y) <= 12 as real * (e * (m / y)),
        norm(x / y) <= 4 as real * (m / y),
        m / y > 0 as real,
{
    lemma_wide();
    lemma_exact_ratio(exact(p), exact(q), x, y, m, e);
    let s: real = m / y;
    lemma_quotient(m, y);
    let b: real = span();
    assert(s <= b) by (nonlinear_arith)
        requires
            s * y == m,
            m <= b * y,
            y > 0 as real,
    ;
    lemma_group(b, s, y);
    assert(b * s >= 1 as real) by (nonlinear_arith)
        requires
            (b * s) * y >= y,
            y > 0 as real,
    ;
    lemma_above_tiny(s);
    let r: real = exact(p) / exact(q);
    lemma_over_error(p, q);
    lemma_eps(norm(r));
    let err: real = norm(exact(p.over(q)) - r);
    let k: real = 0x100_0000 as real;
    // one rounding
    assert(k * err <= 5 as real * s) by {
        if err <= tiny() {
            assert(k * tiny() <= s);
        }
    }
    let es: real = e * s;
    lemma_factor_grows(1 as real, k * e, s);
    lemma_group(k, e, s);
    assert(1 as real * s == s) by (nonlinear_arith);
    assert(k * es >= s);
}

/// The product of two numbers that are near to others is near to their product.
proof fn lemma_near_product(p: real, u: real, b: real, r: real, s: real, e: real)
    requires
        e > 0 as real,
        64 as real * e <= 1 as real,
        s > 0 as real,
        r > 0 as real,
        norm(u) <= 4 as real * s,
        norm(p - u) <= 12 as real * (e * s),
        norm(b - r) <= 12 as real * (e * r),
    ensures
        norm(p * b - u * r) <= 72 as real * (e * (s * r)),
{
    let er: real = e * r;
    let es: real = e * s;
    let sr: real = s * r;
    let esr: real = e * sr;
    lemma_factor_grows(64 as real * e, 1 as real, r);
    lemma_group(64 as real, e, r);
    assert(1 as real * r == r) by (nonlinear_arith);
    assert(norm(b) <= 2 as real * r);
    let d: real = p - u;
    let f: real = b - r;
    assert(p * b - u * r == d * b + u * f) by (nonlinear_arith)
        requires
            d == p - u,
            f == b - r,
    ;
    lemma_norm_product(d, b);
    lemma_norm_product(u, f);
    lemma_norm_product(b, d);
    lemma_norm_product(f, u);
    // first term
    lemma_factor_grows(norm(d), 12 as real * es, norm(b));
    lemma_factor_grows(0 as real, e, s);
    assert(0 as real * s == 0 as real) by (nonlinear_arith);
    lemma_factor_grows(norm(b), 2 as real * r, 12 as real * es);
    assert((12 as real * es) * (2 as real * r) == 24 as real * esr) by {
        lemma_group(e, s, r);
        assert((12 as real * es) * (2 as real * r) == 24 as real * (es * r)) by (nonlinear_arith);
    }
    // second term
    lemma_factor_grows(norm(f), 12 as real * er, norm(u));
    lemma_factor_grows(0 as real, e, r);
    assert(0 as real * r == 0 as real) by (nonlinear_arith);
    lemma_factor_grows(norm(u), 4 as real * s, 12 as real * er);
    assert((12 as real * er) * (4 as real * s) == 48 as real * esr) by {
        assert((12 as real * er) * (4 as real * s) == 48 as real * (er * s)) by (nonlinear_arith);
        lemma_group(e, r, s);
        assert(r * s == s * r) by (nonlinear_arith);
    }
    assert(norm(u) * norm(f) == norm(f) * norm(u)) by (nonlinear_arith);
    assert(norm(u) * (12 as real * er) == (12 as real * er) * norm(u)) by (nonlinear_arith);
    assert(norm(b) * (12 as real * es) == (12 as real * es) * norm(b)) by (nonlinear_arith);
    assert(norm(b) * norm(d) == norm(d) * norm(b)) by (nonlinear_arith);
}

/// Numbers whose products with the same positive number are the same are the same.
pub proof fn lemma_same_factor(x: real, y: real, z: real)
    requires
        z > 0 as real,
        x * z == y * z,
    ensures
        x == y,
{
    assert(x == y) by (nonlinear_arith)
        requires
            z > 0 as real,
            x * z == y * z,
    ;
}

/// A common factor falls out of a quotient.
proof fn lemma_cancel(l: real, x: real, y: real)
    requires
        l > 0 as real,
        y > 0 as real,
    ensures
        l * y > 0 as real,
        (l * x) / (l * y) == x / y,
{
    assert(l * y > 0 as real) by (nonlinear_arith)
        requires
            l > 0 as real,
            y > 0 as real,
    ;
    let q: real = (l * x) / (l * y);
    let r: real = x / y;
    lemma_quotient(l * x, l * y);
    lemma_quotient(x, y);
    lemma_group(r, l, y);
    assert((r * y) * l == l * x) by (nonlinear_arith)
        requires
            r * y == x,
    ;
    lemma_same_factor(q, r, l * y);
}

/// Two quotients, the second over what the first is divided by.
proof fn lemma_chain_rule(x: real, y: real, z: real)
    requires
        y > 0 as real,
        z > 0 as real,
    ensures
        (x / y) * (y / z) == x / z,
{
    let u: real = x / y;
    let r: real = y / z;
    let v: real = x / z;
    lemma_quotient(x, y);
    lemma_quotient(y, z);
    lemma_quotient(x, z);
    lemma_group(u, r, z);
    lemma_same_factor(u * r, v, z);
}

/// A quotient of numbers that are near to multiples of others is near to the quotient of these.
pub proof fn lemma_scaled_ratio(p: Single, q: Single, l: real, x: real, y: real, m: real, e: real)
    requires
        p.finite(),
        q.finite(),
        l > 0 as real,
        y > 0 as real,
        m > 0 as real,
        fine(e),
        norm(exact(p) - l * x) <= e * (l * m),
        norm(exact(q) - l * y) <= e * (l * y),
        norm(x) <= 4 as real * m,
        m <= span() * y,
        y <= span() * m,
    ensures
        p.over(q).finite(),
        norm(exact(p.over(q)) - x / y) <= 12 as real * (e * (m / y)),
        norm(x / y) <= 4 as real * (m / y),
        m / y > 0 as real,
{
    lemma_cancel(l, x, y);
    lemma_cancel(l, m, y);
    lemma_cancel(l, y, m);
    lemma_norm_product(l, x);
    lemma_factor_grows(norm(x), 4 as real * m, l);
    assert(l * (4 as real * m) == 4 as real * (l * m)) by (nonlinear_arith);
    let b: real = span();
    lemma_factor_grows(m, b * y, l);
    lemma_factor_grows(y, b * m, l);
    assert(l * (b * y) == b * (l * y)) by (nonlinear_arith);
    assert(l * (b * m) == b * (l * m)) by (nonlinear_arith);
    lemma_ratio_near(p, q, l * x, l * y, l * m, e);
}

/// The six coefficients of a band, before they are divided by the first of the fed back ones.
pub open spec fn near_coefficients(
    b: (Single, Single, Single),
    a: (Single, Single, Single),
    l: real,
    n: (real, real, real),
    d: (real, real, real),
    e: real,
) -> bool {
    &&& b.0.finite() && b.1.finite() && b.2.finite()
    &&& a.0.finite() && a.1.finite() && a.2.finite()
    &&& norm(exact(b.0) - l * n.0) <= e * (l * n.0)
    &&& norm(exact(b.1) - l * n.1) <= e * (l * n.0)
    &&& norm(exact(b.2) - l * n.2) <= e * (l * n.0)
    &&& norm(exact(a.0) - l * d.0) <= e * (l * d.0)
    &&& norm(exact(a.1) - l * d.1) <= e * (l * d.0)
    &&& norm(exact(a.2) - l * d.2) <= e * (l * d.0)
}

/// The first of three coefficients is positive, and none is more than four times as large.
pub open spec fn led(n: (real, real, real)) -> bool {
    &&& n.0 > 0 as real
    &&& norm(n.1) <= 4 as real * n.0
    &&& norm(n.2) <= 4 as real * n.0
}

/// The one section undoes the other: each feeds forward what the other feeds back, but for the
/// common factor `p.b0` and errors of at most `84 * e`, or that times twice `p.b0`.
#[verifier::opaque]
pub open spec fn undoes(q: Taps, p: Taps, e: real) -> bool {
    let b0 = exact(p.b0);
    &&& norm(exact(q.b0) * b0 - 1 as real) <= 84 as real * e
    &&& norm(exact(q.b1) * b0 - exact(p.a1)) <= 84 as real * e
    &&& norm(exact(q.b2) * b0 - exact(p.a2)) <= 84 as real * e
    &&& norm(exact(q.a1) * b0 - exact(p.b1)) <= 168 as real * (e * b0)
    &&& norm(exact(q.a2) * b0 - exact(p.b2)) <= 168 as real * (e * b0)
}

/// What is fed forward of the one section is what is fed back of the other.
proof fn lemma_forward_is_back(
    bi: Single,
    a0: Single,
    l: real,
    b0: Single,
    ai: Single,
    p0: Single,
    n0: real,
    d0: real,
    di: real,
    e: real,
)
    requires
        bi.finite() && a0.finite() && b0.finite() && ai.finite() && p0.finite(),
        fine(e),
        l > 0 as real,
        n0 > 0 as real,
        d0 > 0 as real,
        norm(di) <= 4 as real * d0,
        n0 <= span() * d0,
        d0 <= span() * n0,
        norm(exact(bi) - l * di) <= e * (l * d0),
        norm(exact(a0) - l * n0) <= e * (l * n0),
        norm(exact(b0) - 1 as real * n0) <= e * (1 as real * n0),
        norm(exact(ai) - 1 as real * di) <= e * (1 as real * d0),
        norm(exact(p0) - 1 as real * d0) <= e * (1 as real * d0),
    ensures
        norm(exact(bi.over(a0)) * exact(b0.over(p0)) - di / d0) <= 72 as real * e,
        norm(exact(ai.over(p0)) - di / d0) <= 12 as real * e,
{
    let one: real = 1 as real;
    lemma_wide();
    lemma_factor_grows(one, span(), d0);
    lemma_factor_grows(one, span(), n0);
    assert(one * d0 == d0) by (nonlinear_arith)
        requires
            one == 1 as real,
    ;
    assert(one * n0 == n0) by (nonlinear_arith)
        requires
            one == 1 as real,
    ;
    lemma_scaled_ratio(bi, a0, l, di, n0, d0, e);
    lemma_scaled_ratio(b0, p0, one, n0, d0, n0, e);
    lemma_scaled_ratio(ai, p0, one, di, d0, d0, e);
    let r: real = n0 / d0;
    let s: real = d0 / n0;
    lemma_near_product(
        exact(bi.over(a0)),
        di / n0,
        exact(b0.over(p0)),
        r,
        s,
        e,
    );
    lemma_chain_rule(di, n0, d0);
    lemma_chain_rule(d0, n0, d0);
    lemma_quotient(d0, d0);
    lemma_same_factor(d0 / d0, one, d0);
    assert(one * d0 == d0) by (nonlinear_arith)
        requires
            one == 1 as real,
    ;
    assert(s * r == d0 / d0);
    assert(e * one == e) by (nonlinear_arith)
        requires
            one == 1 as real,
    ;
}

/// What is fed back of the one section is what is fed forward of the other.
proof fn lemma_back_is_forward(
    ai: Single,
    a0: Single,
    l: real,
    b0: Single,
    bi: Single,
    p0: Single,
    n0: real,
    d0: real,
    ni: real,
    e: real,
)
    requires
        ai.finite() && a0.finite() && b0.finite() && bi.finite() && p0.finite(),
        fine(e),
        l > 0 as real,
        n0 > 0 as real,
        d0 > 0 as real,
        norm(ni) <= 4 as real * n0,
        n0 <= span() * d0,
        d0 <= span() * n0,
        norm(exact(ai) - l * ni) <= e * (l * n0),
        norm(exact(a0) - l * n0) <= e * (l * n0),
        norm(exact(b0) - 1 as real * n0) <= e * (1 as real * n0),
        norm(exact(bi) - 1 as real * ni) <= e * (1 as real * n0),
        norm(exact(p0) - 1 as real * d0) <= e * (1 as real * d0),
    ensures
        norm(exact(ai.over(a0)) * exact(b0.over(p0)) - exact(bi.over(p0))) <= 168 as real * (e
            * exact(b0.over(p0))),
{
    let one: real = 1 as real;
    lemma_wide();
    lemma_factor_grows(one, span(), n0);
    assert(one * n0 == n0) by (nonlinear_arith)
        requires
            one == 1 as real,
    ;
    lemma_scaled_ratio(ai, a0, l, ni, n0, n0, e);
    lemma_scaled_ratio(b0, p0, one, n0, d0, n0, e);
    lemma_scaled_ratio(bi, p0, one, ni, d0, n0, e);
    let r: real = n0 / d0;
    let s: real = n0 / n0;
    let b: real = exact(b0.over(p0));
    lemma_quotient(n0, n0);
    assert(one * n0 == n0) by (nonlinear_arith)
        requires
            one == 1 as real,
    ;
    lemma_same_factor(n0 / n0, one, n0);
    lemma_near_product(exact(ai.over(a0)), ni / n0, b, r, s, e);
    lemma_chain_rule(ni, n0, d0);
    assert(s * r == r) by (nonlinear_arith)
        requires
            s == 1 as real,
    ;
    let er: real = e * r;
    // the exact factor is at most twice the rounded one
    lemma_factor_grows(64 as real * e, one, r);
    lemma_group(64 as real, e, r);
    assert(one * r == r) by (nonlinear_arith)
        requires
            one == 1 as real,
    ;
    assert(r <= 2 as real * b);
    lemma_factor_grows(r, 2 as real * b, e);
    assert(e * (2 as real * b) == 2 as real * (e * b)) by (nonlinear_arith);
}

/// Sections whose coefficients are near to the same numbers, with what is fed forward and what is
/// fed back exchanged, undo each other.
pub proof fn lemma_exchanged_sections(
    pb: (Single, Single, Single),
    pa: (Single, Single, Single),
    qb: (Single, Single, Single),
    qa: (Single, Single, Single),
    l: real,
    n: (real, real, real),
    d: (real, real, real),
    e: real,
)
    requires
        fine(e),
        l > 0 as real,
        led(n),
        led(d),
        n.0 <= span() * d.0,
        d.0 <= span() * n.0,
        near_coefficients(pb, pa, 1 as real, n, d, e),
        near_coefficients(qb, qa, l, d, n, e),
    ensures
        undoes(
            Taps::normalised(qb.0, qb.1, qb.2, qa.0, qa.1, qa.2),
            Taps::normalised(pb.0, pb.1, pb.2, pa.0, pa.1, pa.2),
            e,
        ),
{
    reveal(undoes);
    lemma_forward_is_back(qb.0, qa.0, l, pb.0, pa.0, pa.0, n.0, d.0, d.0, e);
    lemma_forward_is_back(qb.1, qa.0, l, pb.0, pa.1, pa.0, n.0, d.0, d.1, e);
    lemma_forward_is_back(qb.2, qa.0, l, pb.0, pa.2, pa.0, n.0, d.0, d.2, e);
    lemma_back_is_forward(qa.1, qa.0, l, pb.0, pb.1, pa.0, n.0, d.0, n.1, e);
    lemma_back_is_forward(qa.2, qa.0, l, pb.0, pb.2, pa.0, n.0, d.0, n.2, e);
    lemma_quotient(d.0, d.0);
    assert(1 as real * d.0 == d.0) by (nonlinear_arith);
    lemma_same_factor(d.0 / d.0, 1 as real, d.0);
}

/// One plus and one minus a number that is near to `f`, where `2^24 * g` is no less than one plus
/// the amount of `f`.
proof fn lemma_about_one(x: Single, f: real, k: real, g: real)
    requires
        x.finite(),
        norm(exact(x) - f) <= k * g,
        0 as real <= k <= 16 as real,
        0x100_0000 as real * g >= 1 as real + norm(f),
        32 as real * g <= 1 as real + norm(f),
        norm(f) <= broad(),
    ensures
        Single::one().plus(x).finite(),
        Single::one().minus(x).finite(),
        norm(exact(Single::one().plus(x)) - (1 as real + f)) <= k * g + 2 as real * g,
        norm(exact(Single::one().minus(x)) - (1 as real - f)) <= k * g + 2 as real * g,
{
    let one = Single::one();
    let far: real = k * g;
    lemma_share(one);
    lemma_wide();
    lemma_factor_grows(k, 16 as real, g);
    let s: real = 1 as real + exact(x);
    let t: real = 1 as real - exact(x);
    lemma_plus_error(one, x);
    lemma_minus_error(one, x);
    lemma_eps(norm(s));
    lemma_eps(norm(t));
}

/// The product with a number that is near to `t`.
pub proof fn lemma_scaled_up(alpha: Single, a: Single, t: real, d: real)
    requires
        alpha.finite(),
        a.finite(),
        exact(alpha) >= 0 as real,
        t > 0 as real,
        exact(alpha) * t <= broad(),
        0x100_0000 as real * d >= 1 as real,
        512 as real * d <= 1 as real,
        norm(exact(a) - t) <= d * t,
    ensures
        exact(alpha) * t >= 0 as real,
        alpha.times(a).finite(),
        norm(exact(alpha.times(a)) - exact(alpha) * t) <= 4 as real * (d * (1 as real + exact(alpha)
            * t)),
{
    let x: real = exact(alpha);
    let f: real = x * t;
    let g: real = d * (1 as real + f);
    let k: real = 0x100_0000 as real;
    lemma_wide();
    lemma_limits();
    lemma_factor_grows(0 as real, x, t);
    assert(0 as real * t == 0 as real) by (nonlinear_arith);
    let off: real = exact(a) - t;
    lemma_norm_product(x, off);
    lemma_factor_grows(norm(off), d * t, x);
    lemma_group(x, d, t);
    lemma_group(x, t, d);
    assert(f * d == d * f) by (nonlinear_arith);
    lemma_spread(1 as real, f, d);
    lemma_spread(exact(a), t, x);
    let df: real = d * f;
    assert(norm(x * exact(a) - f) <= df);
    lemma_factor_grows(512 as real * d, 1 as real, f);
    lemma_group(512 as real, d, f);
    assert(1 as real * f == f) by (nonlinear_arith);
    assert(d * 1 as real == d) by (nonlinear_arith);
    lemma_times_error(alpha, a);
    lemma_eps(norm(x * exact(a)));
    lemma_factor_grows(1 as real, k * d, f);
    lemma_group(k, d, f);
    assert(k * df >= f);
}

/// The quotient by a number that is near to `t`.
proof fn lemma_scaled_down(alpha: Single, a: Single, t: real, d: real)
    requires
        alpha.finite(),
        a.finite(),
        exact(alpha) >= 0 as real,
        t > 0 as real,
        exact(alpha) / t <= broad(),
        0x100_0000 as real * d >= 1 as real,
        512 as real * d <= 1 as real,
        norm(exact(a) - t) <= d * t,
    ensures
        exact(alpha) / t >= 0 as real,
        alpha.over(a).finite(),
        norm(exact(alpha.over(a)) - exact(alpha) / t) <= 5 as real * (d * (1 as real + exact(alpha)
            / t)),
{
    let x: real = exact(alpha);
    let f: real = x / t;
    let ea: real = exact(a);
    let k: real = 0x100_0000 as real;
    lemma_wide();
    lemma_limits();
    lemma_quotient(x, t);
    assert(f >= 0 as real) by (nonlinear_arith)
        requires
            f * t == x,
            t > 0 as real,
            x >= 0 as real,
    ;
    lemma_factor_grows(512 as real * d, 1 as real, t);
    lemma_group(512 as real, d, t);
    assert(1 as real * t == t) by (nonlinear_arith);
    assert(2 as real * ea >= t);
    let h: real = x / ea;
    lemma_quotient(x, ea);
    // the two quotients
    let g: real = norm(h - f);
    let off: real = t - ea;
    lemma_spread(h, f, ea);
    lemma_spread(t, ea, f);
    assert((h - f) * ea == f * off);
    lemma_norm_product(h - f, ea);
    lemma_norm_product(f, off);
    lemma_factor_grows(norm(off), d * t, f);
    lemma_group(f, d, t);
    let df: real = d * f;
    assert(f * d == df) by (nonlinear_arith)
        requires
            df == d * f,
    ;
    assert(g * ea <= df * t);
    lemma_factor_grows(t, 2 as real * ea, g);
    assert(g * (2 as real * ea) == 2 as real * (g * ea)) by (nonlinear_arith);
    assert((2 as real * df) * t == 2 as real * (df * t)) by (nonlinear_arith);
    assert(g <= 2 as real * df) by (nonlinear_arith)
        requires
            g * t <= (2 as real * df) * t,
            t > 0 as real,
    ;
    lemma_factor_grows(512 as real * d, 1 as real, f);
    lemma_group(512 as real, d, f);
    assert(1 as real * f == f) by (nonlinear_arith);
    lemma_over_error(alpha, a);
    lemma_eps(norm(h));
    lemma_spread(1 as real, f, d);
    assert(d * 1 as real == d) by (nonlinear_arith);
    lemma_factor_grows(1 as real, k * d, f);
    lemma_group(k, d, f);
    assert(k * df >= f);
}

/// What a peak band feeds forward for this bandwidth and this root of its gain, exactly; with the
/// inverse root, what it feeds back.
pub open spec fn ideal_peak(alpha: real, t: real, c: real) -> (real, real, real) {
    (1 as real + alpha * t, c, 1 as real - alpha * t)
}

pub proof fn lemma_inverse(t: real)
    requires
        t > 0 as real,
    ensures
        1 as real / t > 0 as real,
        (1 as real / t) * t == 1 as real,
        1 as real / (1 as real / t) == t,
{
    let v: real = 1 as real / t;
    lemma_quotient(1 as real, t);
    assert(v > 0 as real) by (nonlinear_arith)
        requires
            v * t == 1 as real,
            t > 0 as real,
    ;
    lemma_quotient(1 as real, v);
    assert(t * v == v * t) by (nonlinear_arith);
    lemma_same_factor(1 as real / v, t, v);
}

/// A number over `t` is the number times the inverse.
pub proof fn lemma_over_is_times(x: real, t: real)
    requires
        t > 0 as real,
    ensures
        x / t == x * (1 as real / t),
{
    let v: real = 1 as real / t;
    lemma_inverse(t);
    lemma_quotient(x, t);
    lemma_group(x, v, t);
    assert(x * 1 as real == x) by (nonlinear_arith);
    lemma_same_factor(x / t, x * v, t);
}

/// One of the two triples of a peak band is near to the ideal one.
proof fn lemma_peak_triple(f: Single, x: real, c: Single, k: real, d: real)
    requires
        f.finite(),
        c.finite(),
        norm(exact(c)) <= 3 as real,
        0 as real <= x <= broad(),
        0x100_0000 as real * d >= 1 as real,
        512 as real * d <= 1 as real,
        0 as real <= k <= 5 as real,
        norm(exact(f) - x) <= k * (d * (1 as real + x)),
    ensures
        Single::one().plus(f).finite(),
        Single::one().minus(f).finite(),
        ({
            let n = (1 as real + x, exact(c), 1 as real - x);
            let e = 8 as real * d;
            let s = e * (1 as real * n.0);
            &&& led(n)
            &&& norm(exact(Single::one().plus(f)) - 1 as real * n.0) <= s
            &&& norm(exact(c) - 1 as real * n.1) <= s
            &&& norm(exact(Single::one().minus(f)) - 1 as real * n.2) <= s
        }),
{
    let n0: real = 1 as real + x;
    let n2: real = 1 as real - x;
    let g: real = d * n0;
    lemma_factor_grows(1 as real, 0x100_0000 as real * d, n0);
    lemma_group(0x100_0000 as real, d, n0);
    lemma_factor_grows(512 as real * d, 1 as real, n0);
    lemma_group(512 as real, d, n0);
    assert(1 as real * n0 == n0) by (nonlinear_arith);
    lemma_about_one(f, x, k, g);
    lemma_factor_grows(k, 5 as real, g);
    lemma_group(8 as real, d, n0);
    let c1: real = exact(c);
    assert(1 as real * c1 == c1) by (nonlinear_arith);
    assert(1 as real * n2 == n2) by (nonlinear_arith);
}

/// The coefficients of a peak band are near to the ideal ones for a root that is near to its own.
pub proof fn lemma_peak_near(alpha: Single, a: Single, c: Single, t: real, d: real)
    requires
        alpha.finite(),
        a.finite(),
        c.finite(),
        norm(exact(c)) <= 3 as real,
        exact(alpha) >= 0 as real,
        t > 0 as real,
        exact(alpha) * t <= broad(),
        exact(alpha) / t <= broad(),
        0x100_0000 as real * d >= 1 as real,
        512 as real * d <= 1 as real,
        norm(exact(a) - t) <= d * t,
    ensures
        ({
            let one = Single::one();
            let up = alpha.times(a);
            let down = alpha.over(a);
            let n = ideal_peak(exact(alpha), t, exact(c));
            let m = ideal_peak(exact(alpha), 1 as real / t, exact(c));
            &&& led(n)
            &&& led(m)
            &&& near_coefficients(
                (one.plus(up), c, one.minus(up)),
                (one.plus(down), c, one.minus(down)),
                1 as real,
                n,
                m,
                8 as real * d,
            )
            &&& n.0 <= span() * m.0
            &&& m.0 <= span() * n.0
        }),
{
    let x: real = exact(alpha);
    lemma_scaled_up(alpha, a, t, d);
    lemma_scaled_down(alpha, a, t, d);
    lemma_over_is_times(x, t);
    let f: real = x * t;
    let h: real = x / t;
    lemma_peak_triple(alpha.times(a), f, c, 4 as real, d);
    lemma_peak_triple(alpha.over(a), h, c, 5 as real, d);
    // neither leads by more than the span
    lemma_wide();
    lemma_factor_grows(1 as real, 1 as real + h, span());
    lemma_factor_grows(1 as real, 1 as real + f, span());
    assert(span() * 1 as real == span()) by (nonlinear_arith);
}

/// Numbers whose product is one, up to `d`.
pub open spec fn reciprocal(a: Single, b: Single, d: real) -> bool {
    norm(exact(a) * exact(b) - 1 as real) <= d
}

/// The bound `d` on how far two powers are from being inverse is no less than one rounding, and
/// small.
pub open spec fn slight(d: real) -> bool {
    0x100_0000 as real * d >= 1 as real && 0x4000 as real * d <= 1 as real
}

/// A number whose product with `a` is nearly one is near to the inverse of `a`.
pub proof fn lemma_near_inverse(a: real, b: real, d: real)
    requires
        a > 0 as real,
        norm(a * b - 1 as real) <= d,
    ensures
        norm(b - 1 as real / a) <= d * (1 as real / a),
{
    let v: real = 1 as real / a;
    lemma_inverse(a);
    let off: real = a * b - 1 as real;
    lemma_norm_product(v, off);
    lemma_spread(a * b, 1 as real, v);
    lemma_group(v, a, b);
    assert(1 as real * b == b && v * 1 as real == v) by (nonlinear_arith);
    lemma_factor_grows(norm(off), d, v);
    assert(v * d == d * v) by (nonlinear_arith);
}

/// A peak band that cuts undoes one that boosts by as much, up to rounding, where the roots of the
/// two gains are inverse up to `d`. However large the gain, the error is the same, as long as its
/// root times the bandwidth, and the bandwidth over the root, are not so large that coefficients
/// become infinite.
pub proof fn law_peak_cut_undoes_boost(
    q: Single,
    sin_w0: Single,
    cos_w0: Single,
    a: Single,
    b: Single,
    d: real,
)
    requires
        slight(d),
        a.finite(),
        exact(a) > 0 as real,
        b.finite(),
        reciprocal(a, b, d),
        cos_w0.abs().bits <= Single::one().bits,
        ({
            let alpha = sin_w0.over(Single::from_bits(TWO).times(q));
            &&& alpha.finite()
            &&& exact(alpha) >= 0 as real
            &&& exact(alpha) * exact(a) <= broad()
            &&& exact(alpha) / exact(a) <= broad()
        }),
    ensures
        undoes(peak_taps(q, sin_w0, cos_w0, b), peak_taps(q, sin_w0, cos_w0, a), 8 as real * d),
{
    let one = Single::one();
    let alpha = sin_w0.over(Single::from_bits(TWO).times(q));
    let c = Single::from_bits(MINUS_TWO).times(cos_w0);
    let x: real = exact(alpha);
    let t: real = exact(a);
    let v: real = 1 as real / t;
    lemma_twice_cosine(cos_w0);
    lemma_inverse(t);
    lemma_over_is_times(x, t);
    lemma_over_is_times(x, v);
    lemma_near_inverse(t, exact(b), d);
    lemma_factor_grows(0 as real, d, t);
    assert(0 as real * t == 0 as real) by (nonlinear_arith);
    lemma_peak_near(alpha, a, c, t, d);
    lemma_peak_near(alpha, b, c, v, d);
    let up = alpha.times(a);
    let down = alpha.over(a);
    let up_b = alpha.times(b);
    let down_b = alpha.over(b);
    lemma_exchanged_sections(
        (one.plus(up), c, one.minus(up)),
        (one.plus(down), c, one.minus(down)),
        (one.plus(up_b), c, one.minus(up_b)),
        (one.plus(down_b), c, one.minus(down_b)),
        1 as real,
        ideal_peak(x, t, exact(c)),
        ideal_peak(x, v, exact(c)),
        8 as real * d,
    );
}

/// Minus twice a cosine, and twice one, are at most about two.
pub proof fn lemma_twice_cosine(c: Single)
    requires
        c.abs().bits <= Single::one().bits,
    ensures
        c.finite(),
        norm(exact(c)) <= 1 as real,
        Single::from_bits(MINUS_TWO).times(c).finite(),
        norm(exact(Single::from_bits(MINUS_TWO).times(c))) <= 3 as real,
        exact(Single::from_bits(TWO)) == 2 as real,
        exact(Single::from_bits(MINUS_TWO)) == -(2 as real),
{
    let two = Single::from_bits(TWO);
    let minus_two = Single::from_bits(MINUS_TWO);
    lemma_limits();
    lemma_wide();
    lemma_share(c.abs());
    assert(c == c.abs() || c == c.abs().negated());
    crate::accuracy::lemma_negated_exact(c.abs());
    lemma_exact_two();
    let e: real = exact(c);
    assert(norm(e) <= 1 as real);
    assert((-(2 as real)) * e == -(2 as real * e)) by (nonlinear_arith);
    lemma_times_error(minus_two, c);
    lemma_eps(norm((-(2 as real)) * e));
}

pub proof fn lemma_exact_two()
    ensures
        Single::from_bits(TWO).finite(),
        Single::from_bits(MINUS_TWO).finite(),
        exact(Single::from_bits(TWO)) == 2 as real,
        exact(Single::from_bits(MINUS_TWO)) == -(2 as real),
{
    let two = Single::from_bits(TWO);
    let u: real = vstd::arithmetic::power2::pow2(149) as real;
    super::laws_stages::lemma_two();
    crate::accuracy::lemma_exact(two);
    lemma_same_factor(exact(two), 2 as real, u);
    assert(Single::from_bits(MINUS_TWO) == two.negated());
    crate::accuracy::lemma_negated_exact(two);
}

/// The sum and the difference of numbers that are near to others, where `2^24 * g` is no less than
/// `b`, and neither the exact ones nor the errors exceed it together.
pub proof fn lemma_near_sum(
    x: Single,
    y: Single,
    xs: real,
    ys: real,
    ex: real,
    ey: real,
    b: real,
    g: real,
)
    requires
        x.finite(),
        y.finite(),
        norm(exact(x) - xs) <= ex,
        norm(exact(y) - ys) <= ey,
        norm(xs) + norm(ys) + ex + ey <= b,
        b <= broad(),
        0x100_0000 as real * g >= b,
    ensures
        x.plus(y).finite(),
        x.minus(y).finite(),
        norm(exact(x.plus(y)) - (xs + ys)) <= ex + ey + g,
        norm(exact(x.minus(y)) - (xs - ys)) <= ex + ey + g,
{
    lemma_wide();
    lemma_plus_error(x, y);
    lemma_minus_error(x, y);
    lemma_eps(norm(exact(x) + exact(y)));
    lemma_eps(norm(exact(x) - exact(y)));
}

/// The product of a number that is near to another with one of at most one.
pub proof fn lemma_near_share(x: Single, c: Single, xs: real, ex: real, b: real, g: real)
    requires
        x.finite(),
        c.finite(),
        norm(exact(c)) <= 1 as real,
        norm(exact(x) - xs) <= ex,
        norm(xs) + ex + 1 as real <= b,
        b <= broad(),
        0x100_0000 as real * g >= b,
    ensures
        x.times(c).finite(),
        norm(exact(x.times(c)) - xs * exact(c)) <= ex + g,
{
    lemma_wide();
    lemma_limits();
    let ec: real = exact(c);
    let e: real = exact(x);
    let off: real = e - xs;
    lemma_spread(e, xs, ec);
    lemma_norm_product(off, ec);
    lemma_norm_product(e, ec);
    lemma_norm_product(xs, ec);
    lemma_norm_product(ec, ec);
    lemma_factor_grows(norm(ec), 1 as real, norm(off));
    lemma_factor_grows(norm(ec), 1 as real, norm(e));
    assert(norm(off) * 1 as real == norm(off) && norm(e) * 1 as real == norm(e))
        by (nonlinear_arith);
    lemma_times_error(x, c);
    lemma_eps(norm(e * ec));
}

/// The product of a positive number that is near to `t` with one that is near to `ys`.
pub proof fn lemma_near_gain(
    x: Single,
    y: Single,
    t: real,
    ys: real,
    m: real,
    h: real,
    k: real,
    d: real,
)
    requires
        x.finite(),
        y.finite(),
        t > 0 as real,
        slight(d),
        0 as real <= h <= 4 as real,
        0 as real <= k <= 128 as real,
        m > 0 as real,
        norm(exact(x) - t) <= h * (d * t),
        norm(exact(y) - ys) <= k * (d * m),
        norm(ys) <= m,
        span() * (t * m) >= 1 as real,
        t * m <= broad(),
    ensures
        x.times(y).finite(),
        norm(exact(x.times(y)) - t * ys) <= (2 as real * h + k + 3 as real) * (d * (t * m)),
{
    lemma_wide();
    lemma_limits();
    let p: real = t * m;
    lemma_above_tiny(p);
    let dp: real = d * p;
    let dm: real = d * m;
    let dt: real = d * t;
    let a: real = exact(x) - t;
    let b: real = exact(y) - ys;
    let kk: real = 0x100_0000 as real;
    // sizes
    lemma_factor_grows(0x4000 as real * d, 1 as real, m);
    lemma_group(0x4000 as real, d, m);
    assert(1 as real * m == m) by (nonlinear_arith);
    lemma_factor_grows(0x4000 as real * d, 1 as real, p);
    lemma_group(0x4000 as real, d, p);
    assert(1 as real * p == p) by (nonlinear_arith);
    lemma_factor_grows(1 as real, kk * d, p);
    lemma_group(kk, d, p);
    lemma_factor_grows(0 as real, d, m);
    lemma_factor_grows(0 as real, d, t);
    lemma_factor_grows(0 as real, d, p);
    assert(0 as real * m == 0 as real && 0 as real * t == 0 as real && 0 as real * p == 0 as real)
        by (nonlinear_arith);
    lemma_factor_grows(k, 128 as real, dm);
    assert(norm(exact(y)) <= 2 as real * m);
    // the exact product
    assert(exact(x) * exact(y) - t * ys == a * exact(y) + t * b) by (nonlinear_arith)
        requires
            a == exact(x) - t,
            b == exact(y) - ys,
    ;
    lemma_norm_product(a, exact(y));
    lemma_norm_product(t, b);
    lemma_norm_product(exact(y), a);
    lemma_factor_grows(norm(a), h * dt, norm(exact(y)));
    lemma_factor_grows(0 as real, h, dt);
    assert(0 as real * dt == 0 as real) by (nonlinear_arith);
    lemma_factor_grows(norm(exact(y)), 2 as real * m, h * dt);
    assert((h * dt) * (2 as real * m) == 2 as real * (h * dp)) by (nonlinear_arith)
        requires
            dt == d * t,
            dp == d * p,
            p == t * m,
    ;
    assert(norm(exact(y)) * norm(a) == norm(a) * norm(exact(y))) by (nonlinear_arith);
    assert(norm(exact(y)) * (h * dt) == (h * dt) * norm(exact(y))) by (nonlinear_arith);
    lemma_factor_grows(norm(b), k * dm, t);
    assert(t * (k * dm) == k * dp) by (nonlinear_arith)
        requires
            dm == d * m,
            dp == d * p,
            p == t * m,
    ;
    let f: real = exact(x) * exact(y);
    lemma_norm_product(t, ys);
    lemma_factor_grows(norm(ys), m, t);
    lemma_factor_grows(h, 4 as real, dp);
    lemma_factor_grows(k, 128 as real, dp);
    assert(norm(f - t * ys) <= 2 as real * (h * dp) + k * dp);
    assert(norm(f) <= 2 as real * p);
    // and its rounding
    lemma_times_error(x, y);
    lemma_eps(norm(f));
    assert((2 as real * h + k + 3 as real) * dp == 2 as real * (h * dp) + k * dp + 3 as real * dp)
        by (nonlinear_arith);
}

} // verus!
