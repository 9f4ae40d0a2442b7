//! Boosts and cuts of shelves.
use vstd::prelude::*;

use super::biquad::angle;
use super::eq::{peak_taps, shelf_taps, BandKind, EqBand};
use super::laws_eq::{
    broad, law_peak_cut_undoes_boost, led, lemma_exact_two, lemma_exchanged_sections,
    lemma_inverse, lemma_near_gain, lemma_near_inverse, lemma_near_share, lemma_near_sum,
    lemma_scaled_up, lemma_twice_cosine, lemma_wide, near_coefficients, reciprocal, slight, span,
    undoes,
};
use super::laws_runs::steady;
use super::level::Elementary;
use crate::accuracy::{
    exact, lemma_eps, lemma_factor_grows, lemma_group, lemma_limits, lemma_norm_product,
    lemma_share, lemma_spread, lemma_times_error, norm,
};
use crate::numbers::{FORTY, MINUS_TWO, SQRT_TWO, TWO};
use crate::single::Single;

verus! {

/// The lower flank of a shelf, exactly.
pub open spec fn ideal_lower(t: real, c: real) -> real {
    (t + 1 as real) - (t - 1 as real) * c
}

/// The upper flank of a shelf, exactly.
pub open spec fn ideal_upper(t: real, c: real) -> real {
    (t + 1 as real) + (t - 1 as real) * c
}

/// The tilt that goes with the lower flank, exactly.
pub open spec fn ideal_tilt_down(t: real, c: real) -> real {
    (t - 1 as real) - (t + 1 as real) * c
}

/// The tilt that goes with the upper flank, exactly.
pub open spec fn ideal_tilt_up(t: real, c: real) -> real {
    (t - 1 as real) + (t + 1 as real) * c
}

/// The flanks and tilts of a shelf are near to the ideal ones for a root that is near to its own.
proof fn lemma_flanks(a: Single, c: Single, t: real, g: real)
    requires
        a.finite(),
        c.finite(),
        norm(exact(c)) <= 1 as real,
        norm(exact(a) - t) <= g,
        t > 0 as real,
        t <= 0x400_0000_0000_0000 as real,
        0x100_0000 as real * g >= t + 1 as real,
        1024 as real * g <= t + 1 as real,
    ensures
        ({
            let one = Single::one();
            let up = a.plus(one);
            let down = a.minus(one);
            let lower = up.minus(down.times(c));
            let upper = up.plus(down.times(c));
            let tilt_down = down.minus(up.times(c));
            let tilt_up = down.plus(up.times(c));
            let ec = exact(c);
            &&& lower.finite() && upper.finite() && tilt_down.finite() && tilt_up.finite()
            &&& norm(exact(lower) - ideal_lower(t, ec)) <= 13 as real * g
            &&& norm(exact(upper) - ideal_upper(t, ec)) <= 13 as real * g
            &&& norm(exact(tilt_down) - ideal_tilt_down(t, ec)) <= 13 as real * g
            &&& norm(exact(tilt_up) - ideal_tilt_up(t, ec)) <= 13 as real * g
        }),
{
    let one = Single::one();
    let u: real = t + 1 as real;
    let w: real = t - 1 as real;
    let ec: real = exact(c);
    lemma_share(one);
    lemma_wide();
    lemma_near_sum(a, one, t, 1 as real, g, 0 as real, 2 as real * u, 2 as real * g);
    let up = a.plus(one);
    let down = a.minus(one);
    assert(norm(w) <= u);
    lemma_near_share(down, c, w, 3 as real * g, 3 as real * u, 3 as real * g);
    lemma_near_share(up, c, u, 3 as real * g, 3 as real * u, 3 as real * g);
    let wc: real = w * ec;
    let uc: real = u * ec;
    lemma_norm_product(w, ec);
    lemma_norm_product(u, ec);
    lemma_norm_product(ec, ec);
    lemma_factor_grows(norm(ec), 1 as real, norm(w));
    lemma_factor_grows(norm(ec), 1 as real, u);
    assert(norm(w) * 1 as real == norm(w) && u * 1 as real == u) by (nonlinear_arith);
    lemma_near_sum(
        up,
        down.times(c),
        u,
        wc,
        3 as real * g,
        6 as real * g,
        4 as real * u,
        4 as real * g,
    );
    lemma_near_sum(
        down,
        up.times(c),
        w,
        uc,
        3 as real * g,
        6 as real * g,
        4 as real * u,
        4 as real * g,
    );
}

/// Neither flank is smaller than the root and one together by more than the factor `w`. This is
/// what rounding a flank, which is a difference, may cost.
pub open spec fn flanks_stand(t: real, c: real, w: real) -> bool {
    &&& w >= 1 as real
    &&& t + 1 as real <= w * ideal_lower(t, c)
    &&& t + 1 as real <= w * ideal_upper(t, c)
}

/// How flanks and tilts compare.
proof fn lemma_ideal_flanks(t: real, c: real)
    requires
        t > 0 as real,
        norm(c) <= 1 as real,
    ensures
        ideal_lower(t, c) <= 2 as real * (t + 1 as real),
        ideal_upper(t, c) <= 2 as real * (t + 1 as real),
        norm(ideal_tilt_down(t, c)) <= ideal_lower(t, c),
        norm(ideal_tilt_up(t, c)) <= ideal_upper(t, c),
        t >= 1 as real ==> ideal_lower(t, c) >= 2 as real && ideal_upper(t, c) >= 2 as real,
        t <= 1 as real ==> ideal_lower(t, c) >= 2 as real * t && ideal_upper(t, c) >= 2 as real * t,
{
    let tc: real = t * c;
    let w: real = t - 1 as real;
    lemma_spread(t, 1 as real, c);
    assert(1 as real * c == c) by (nonlinear_arith);
    let wc: real = w * c;
    assert(wc == tc - c);
    lemma_norm_product(w, c);
    lemma_norm_product(c, w);
    lemma_factor_grows(norm(c), 1 as real, norm(w));
    assert(norm(w) * 1 as real == norm(w)) by (nonlinear_arith);
    lemma_norm_product(t, c);
    lemma_factor_grows(norm(c), 1 as real, t);
    assert(t * 1 as real == t) by (nonlinear_arith);
}

/// The factor by which flanks may be smaller grows with the gain only: it is at most the root of
/// the gain, or its inverse, whichever is larger.
pub proof fn law_flanks_stand_by_the_gain(t: real, c: real, w: real)
    requires
        t > 0 as real,
        norm(c) <= 1 as real,
        w >= 1 as real,
        t <= w,
        w * t >= 1 as real,
    ensures
        flanks_stand(t, c, w),
{
    lemma_ideal_flanks(t, c);
    let lower: real = ideal_lower(t, c);
    let upper: real = ideal_upper(t, c);
    if t >= 1 as real {
        lemma_factor_grows(2 as real, lower, w);
        lemma_factor_grows(2 as real, upper, w);
    } else {
        lemma_factor_grows(2 as real * t, lower, w);
        lemma_factor_grows(2 as real * t, upper, w);
        lemma_factor_grows(1 as real, w, t);
        assert(w * (2 as real * t) == 2 as real * (w * t)) by (nonlinear_arith);
        assert(1 as real * t == t) by (nonlinear_arith);
    }
}

/// The slope of a shelf is near to the ideal one for a root that is near to its own.
proof fn lemma_slope(root: Single, alpha: Single, r: real, d: real)
    requires
        root.finite(),
        alpha.finite(),
        0 as real <= exact(alpha) <= 0x10_0000 as real,
        0x4000_0000 as real * r >= 1 as real,
        r <= 0x4000_0000 as real,
        slight(d),
        norm(exact(root) - r) <= d * r,
    ensures
        ({
            let s = Single::from_bits(TWO).times(root).times(alpha);
            let ideal = exact(alpha) * (2 as real * r);
            &&& s.finite()
            &&& 0 as real <= ideal <= 0x8_0000_0000_0000 as real
            &&& norm(exact(s) - ideal) <= 12 as real * (d * (1 as real + ideal))
        }),
{
    let two = Single::from_bits(TWO);
    let k: real = 0x100_0000 as real;
    lemma_exact_two();
    lemma_limits();
    lemma_wide();
    let dr: real = d * r;
    lemma_factor_grows(1 as real, k * d, r);
    lemma_group(k, d, r);
    assert(1 as real * r == r) by (nonlinear_arith);
    lemma_factor_grows(0x4000 as real * d, 1 as real, r);
    lemma_group(0x4000 as real, d, r);
    let e: real = exact(root);
    lemma_times_error(two, root);
    lemma_eps(norm(2 as real * e));
    let y = two.times(root);
    assert(norm(exact(y) - 2 as real * r) <= 6 as real * dr);
    let d3: real = 3 as real * d;
    assert(d3 * (2 as real * r) == 6 as real * dr) by (nonlinear_arith)
        requires
            d3 == 3 as real * d,
            dr == d * r,
    ;
    let x: real = exact(alpha);
    lemma_factor_grows(x, 0x10_0000 as real, 2 as real * r);
    lemma_scaled_up(alpha, y, 2 as real * r, d3);
    crate::numeric::lemma_times_commutes(alpha, y);
    let f: real = 1 as real + exact(alpha) * (2 as real * r);
    lemma_group(3 as real, d, f);
}

/// The errors of flanks and slopes, counted in shares of the flank: `d` is the share of one
/// rounding and of the host's errors, and `w` says how much of it a flank may cost.
pub open spec fn counted(d: real, w: real) -> bool {
    &&& 0x100_0000 as real * d >= 1 as real
    &&& w >= 1 as real
    &&& slight(d * w)
}

/// The share of one error, and that of a flank.
pub proof fn lemma_counted(d: real, w: real)
    requires
        counted(d, w),
    ensures
        d <= d * w,
        d > 0 as real,
        slight(d),
        w <= 1024 as real,
{
    let k: real = 0x100_0000 as real;
    lemma_factor_grows(1 as real, w, d);
    assert(d * 1 as real == d) by (nonlinear_arith);
    lemma_factor_grows(1 as real, k * d, w);
    lemma_group(k, d, w);
    assert(1 as real * w == w) by (nonlinear_arith);
}

/// A flank with the slope added and taken off.
proof fn lemma_flank_and_slope(
    flank: Single,
    slope: Single,
    f: real,
    s: real,
    t: real,
    w: real,
    d: real,
)
    requires
        flank.finite(),
        slope.finite(),
        counted(d, w),
        t > 0 as real,
        t <= 0x400_0000_0000_0000 as real,
        t + 1 as real <= w * f,
        f <= 2 as real * (t + 1 as real),
        0 as real <= s <= 0x8_0000_0000_0000 as real,
        norm(exact(flank) - f) <= 13 as real * (d * (t + 1 as real)),
        norm(exact(slope) - s) <= 12 as real * (d * (1 as real + s)),
    ensures
        ({
            let q = f + s;
            &&& f > 0 as real
            &&& flank.plus(slope).finite()
            &&& flank.minus(slope).finite()
            &&& norm(exact(flank.plus(slope)) - (f + s)) <= 27 as real * ((d * w) * q)
            &&& norm(exact(flank.minus(slope)) - (f - s)) <= 27 as real * ((d * w) * q)
        }),
{
    let q: real = f + s;
    let k: real = 0x100_0000 as real;
    let u: real = t + 1 as real;
    let dd: real = d * w;
    let dq: real = dd * q;
    let du: real = d * u;
    let df: real = dd * f;
    let ds: real = dd * s;
    lemma_counted(d, w);
    lemma_wide();
    assert(f > 0 as real) by (nonlinear_arith)
        requires
            w * f >= 1 as real,
            w >= 1 as real,
    ;
    // one is at most the flank times the factor
    lemma_factor_grows(u, w * f, d);
    lemma_group(d, w, f);
    assert(du <= df);
    lemma_factor_grows(1 as real, w * f, d);
    assert(d * 1 as real == d) by (nonlinear_arith);
    assert(d <= df);
    lemma_spread(1 as real, s, d);
    lemma_factor_grows(d, dd, s);
    lemma_spread(f, s, dd);
    lemma_factor_grows(1 as real, k * dd, q);
    lemma_group(k, dd, q);
    assert(1 as real * q == q) by (nonlinear_arith);
    lemma_factor_grows(0x4000 as real * dd, 1 as real, q);
    lemma_group(0x4000 as real, dd, q);
    lemma_factor_grows(0 as real, s, dd);
    assert(dd * 0 as real == 0 as real) by (nonlinear_arith);
    let ex: real = 13 as real * df;
    let ey: real = 12 as real * df + 12 as real * ds;
    lemma_near_sum(flank, slope, f, s, ex, ey, 2 as real * q, 2 as real * dq);
}

/// Three coefficients that start with a flank and a slope, exactly.
pub open spec fn ideal_triple(f: real, s: real, tilt: real) -> (real, real, real) {
    (f + s, 2 as real * tilt, f - s)
}

/// A triple times a number.
pub open spec fn times_triple(l: real, x: (real, real, real)) -> (real, real, real) {
    (l * x.0, l * x.1, l * x.2)
}

/// What a shelf feeds back is near to the ideal.
proof fn lemma_fed_back(
    flank: Single,
    slope: Single,
    tilt: Single,
    two: Single,
    sign: real,
    f: real,
    s: real,
    ft: real,
    t: real,
    w: real,
    d: real,
)
    requires
        flank.finite() && slope.finite() && tilt.finite() && two.finite(),
        counted(d, w),
        exact(two) == 2 as real * sign,
        sign == 1 as real || sign == -(1 as real),
        t > 0 as real,
        t <= 0x400_0000_0000_0000 as real,
        t + 1 as real <= w * f,
        f <= 2 as real * (t + 1 as real),
        0 as real <= s <= 0x8_0000_0000_0000 as real,
        norm(ft) <= f,
        norm(exact(flank) - f) <= 13 as real * (d * (t + 1 as real)),
        norm(exact(tilt) - ft) <= 13 as real * (d * (t + 1 as real)),
        norm(exact(slope) - s) <= 12 as real * (d * (1 as real + s)),
    ensures
        ({
            let n = ideal_triple(f, s, sign * ft);
            let b = (48 as real * (d * w)) * n.0;
            &&& led(n)
            &&& flank.plus(slope).finite()
            &&& flank.minus(slope).finite()
            &&& two.times(tilt).finite()
            &&& norm(exact(flank.plus(slope)) - n.0) <= b
            &&& norm(exact(two.times(tilt)) - n.1) <= b
            &&& norm(exact(flank.minus(slope)) - n.2) <= b
        }),
{
    let q: real = f + s;
    let dd: real = d * w;
    let dq: real = dd * q;
    let df: real = dd * f;
    let u: real = t + 1 as real;
    let k: real = 0x100_0000 as real;
    lemma_counted(d, w);
    lemma_wide();
    lemma_flank_and_slope(flank, slope, f, s, t, w, d);
    lemma_group(48 as real, dd, q);
    // the tilt
    lemma_factor_grows(u, w * f, d);
    lemma_group(d, w, f);
    lemma_factor_grows(w, 1024 as real, f);
    assert(1024 as real * f >= 1 as real);
    lemma_factor_grows(f, q, dd);
    lemma_factor_grows(1 as real, k * dd, q);
    lemma_group(k, dd, q);
    assert(1 as real * q == q) by (nonlinear_arith);
    lemma_factor_grows(0x4000 as real * dd, 1 as real, f);
    lemma_group(0x4000 as real, dd, f);
    assert(1 as real * f == f) by (nonlinear_arith);
    let e: real = exact(tilt);
    let off: real = e - ft;
    lemma_signed_double(sign, e);
    lemma_signed_double(sign, ft);
    lemma_signed_double(sign, off);
    assert(norm(off) <= 13 as real * df);
    lemma_times_error(two, tilt);
    lemma_eps(norm(exact(two) * e));
}

/// Twice a number, with or without a minus sign.
proof fn lemma_signed_double(sign: real, x: real)
    requires
        sign == 1 as real || sign == -(1 as real),
    ensures
        (2 as real * sign) * x == 2 as real * (sign * x),
        norm(sign * x) == norm(x),
        sign == 1 as real ==> sign * x == x,
        sign != 1 as real ==> sign * x == -x,
{
    assert((2 as real * sign) * x == 2 as real * (sign * x)) by (nonlinear_arith);
    assert(1 as real * x == x) by (nonlinear_arith);
    assert((-(1 as real)) * x == -x) by (nonlinear_arith);
}

/// What a shelf feeds forward is near to the ideal.
proof fn lemma_fed_forward(
    a: Single,
    flank: Single,
    slope: Single,
    tilt: Single,
    two: Single,
    sign: real,
    f: real,
    s: real,
    ft: real,
    t: real,
    w: real,
    d: real,
)
    requires
        a.finite() && flank.finite() && slope.finite() && tilt.finite() && two.finite(),
        counted(d, w),
        exact(two) == 2 as real * sign,
        sign == 1 as real || sign == -(1 as real),
        0x400_0000_0000_0000 as real * t >= 1 as real,
        t <= 0x400_0000_0000_0000 as real,
        norm(exact(a) - t) <= d * t,
        t + 1 as real <= w * f,
        f <= 2 as real * (t + 1 as real),
        0 as real <= s <= 0x8_0000_0000_0000 as real,
        norm(ft) <= f,
        norm(exact(flank) - f) <= 13 as real * (d * (t + 1 as real)),
        norm(exact(tilt) - ft) <= 13 as real * (d * (t + 1 as real)),
        norm(exact(slope) - s) <= 12 as real * (d * (1 as real + s)),
    ensures
        ({
            let n = times_triple(t, ideal_triple(f, s, sign * ft));
            let b = (48 as real * (d * w)) * n.0;
            &&& led(n)
            &&& a.times(flank.plus(slope)).finite()
            &&& a.times(flank.minus(slope)).finite()
            &&& two.times(a).times(tilt).finite()
            &&& norm(exact(a.times(flank.plus(slope))) - n.0) <= b
            &&& norm(exact(two.times(a).times(tilt)) - n.1) <= b
            &&& norm(exact(a.times(flank.minus(slope))) - n.2) <= b
        }),
{
    let q: real = f + s;
    let dd: real = d * w;
    let p: real = t * q;
    let dp: real = dd * p;
    lemma_counted(d, w);
    lemma_flank_and_slope(flank, slope, f, s, t, w, d);
    lemma_first_is_sized(f, s, t, w);
    lemma_group(48 as real, dd, p);
    let h: real = 1 as real;
    let dt: real = dd * t;
    assert(h * dt == dt) by (nonlinear_arith)
        requires
            h == 1 as real,
    ;
    lemma_factor_grows(d, dd, t);
    lemma_near_gain(a, flank.plus(slope), t, f + s, q, h, 27 as real, dd);
    lemma_near_gain(a, flank.minus(slope), t, f - s, q, h, 27 as real, dd);
    assert((2 as real * h + 27 as real + 3 as real) * dp == 32 as real * dp) by (nonlinear_arith)
        requires
            h == 1 as real,
    ;
    lemma_factor_grows(0 as real, dd, p);
    assert(0 as real * p == 0 as real) by (nonlinear_arith);
    // the tilt
    lemma_tilted(a, tilt, two, sign, f, s, ft, t, w, d);
    lemma_norm_product(t, f - s);
    lemma_factor_grows(norm(f - s), q, t);
    lemma_signed_double(sign, ft);
    let m1: real = 2 as real * (sign * ft);
    lemma_norm_product(t, m1);
    lemma_factor_grows(norm(m1), 2 as real * q, t);
    assert(t * (2 as real * q) == 2 as real * p) by (nonlinear_arith)
        requires
            p == t * q,
    ;
    let n = times_triple(t, ideal_triple(f, s, sign * ft));
    assert(n.0 == p && n.1 == t * m1 && n.2 == t * (f - s));
    assert(led(n));
}

/// The first coefficient that a shelf feeds forward is neither too large nor too small.
proof fn lemma_first_is_sized(f: real, s: real, t: real, w: real)
    requires
        0x400_0000_0000_0000 as real * t >= 1 as real,
        t <= 0x400_0000_0000_0000 as real,
        1 as real <= w <= 1024 as real,
        f > 0 as real,
        t + 1 as real <= w * f,
        f <= 2 as real * (t + 1 as real),
        0 as real <= s <= 0x8_0000_0000_0000 as real,
    ensures
        1024 as real * f >= 1 as real,
        t * (f + s) > 0 as real,
        span() * (t * (f + s)) >= 1 as real,
        2 as real * (t * (f + s)) <= broad(),
{
    let q: real = f + s;
    let p: real = t * q;
    let b: real = 0x400_0000_0000_0000 as real;
    lemma_wide();
    lemma_factor_grows(w, 1024 as real, f);
    // from below
    lemma_factor_grows(1 as real, 1024 as real * q, t);
    assert(t * (1024 as real * q) == 1024 as real * p && t * 1 as real == t) by (nonlinear_arith)
        requires
            p == t * q,
    ;
    assert((1024 as real * b) * p >= 1 as real);
    assert(p > 0 as real);
    reveal(broad);
    vstd::arithmetic::power2::lemma2_to64();
    vstd::arithmetic::power2::lemma2_to64_rest();
    crate::arith::lemma_pow2_sum(58, 62);
    crate::accuracy::lemma_real_product(
        vstd::arithmetic::power2::pow2(58) as int,
        vstd::arithmetic::power2::pow2(62) as int,
    );
    assert(broad() == b * 0x4000_0000_0000_0000 as real);
    assert(span() >= 1024 as real * b) by {
        lemma_factor_grows(1 as real, 0x4000_0000_0000_0000 as real, b);
        assert(b * 1 as real == b) by (nonlinear_arith);
    }
    lemma_factor_grows(1024 as real * b, span(), p);
    // from above
    lemma_factor_grows(t, b, q);
    assert(q <= 0x2000_0000_0000_0000 as real);
    lemma_factor_grows(q, 0x2000_0000_0000_0000 as real, b);
}

/// The middle coefficient that a shelf feeds forward.
proof fn lemma_tilted(
    a: Single,
    tilt: Single,
    two: Single,
    sign: real,
    f: real,
    s: real,
    ft: real,
    t: real,
    w: real,
    d: real,
)
    requires
        a.finite() && tilt.finite() && two.finite(),
        counted(d, w),
        exact(two) == 2 as real * sign,
        sign == 1 as real || sign == -(1 as real),
        0x400_0000_0000_0000 as real * t >= 1 as real,
        t <= 0x400_0000_0000_0000 as real,
        norm(exact(a) - t) <= d * t,
        f > 0 as real,
        t + 1 as real <= w * f,
        f <= 2 as real * (t + 1 as real),
        0 as real <= s <= 0x8_0000_0000_0000 as real,
        norm(ft) <= f,
        norm(exact(tilt) - ft) <= 13 as real * (d * (t + 1 as real)),
    ensures
        two.times(a).times(tilt).finite(),
        norm(exact(two.times(a).times(tilt)) - t * (2 as real * (sign * ft))) <= 44 as real * ((d
            * w) * (t * (f + s))),
{
    let q: real = f + s;
    let u: real = t + 1 as real;
    let dd: real = d * w;
    let dt: real = dd * t;
    lemma_wide();
    lemma_counted(d, w);
    // twice the root, without its sign
    let y = two.times(a);
    lemma_doubled_root(a, two, sign, t, d);
    let z = if sign == 1 as real {
        y
    } else {
        y.negated()
    };
    crate::accuracy::lemma_negated_exact(y);
    let t2: real = 2 as real * t;
    lemma_factor_grows(d, dd, t);
    assert(norm(exact(z) - t2) <= 6 as real * dt);
    assert(3 as real * (dd * t2) == 6 as real * dt) by (nonlinear_arith)
        requires
            t2 == 2 as real * t,
            dt == dd * t,
    ;
    // the tilt
    lemma_factor_grows(u, w * f, d);
    lemma_group(d, w, f);
    lemma_factor_grows(f, q, dd);
    // and their product
    lemma_first_is_sized(f, s, t, w);
    lemma_group(2 as real, t, q);
    let p: real = t * q;
    lemma_factor_grows(p, 2 as real * p, span());
    lemma_near_gain(z, tilt, t2, ft, q, 3 as real, 13 as real, dd);
    assert(dd * (t2 * q) == 2 as real * (dd * p)) by (nonlinear_arith)
        requires
            t2 == 2 as real * t,
            p == t * q,
    ;
    lemma_negated_factor(y, tilt);
    crate::accuracy::lemma_negated_exact(z.times(tilt));
    lemma_signed_double(sign, ft);
    assert(t2 * ft == t * (2 as real * ft)) by (nonlinear_arith)
        requires
            t2 == 2 as real * t,
    ;
    assert(t * (2 as real * (-ft)) == -(t * (2 as real * ft))) by (nonlinear_arith);
    let x: real = dd * (t2 * q);
    assert((2 as real * 3 as real + 13 as real + 3 as real) * x == 22 as real * x)
        by (nonlinear_arith);
    assert(norm(exact(z.times(tilt)) - t2 * ft) <= 44 as real * (dd * p));
    if sign == 1 as real {
        assert(sign * ft == ft);
        assert(y.times(tilt) == z.times(tilt));
    } else {
        assert(sign * ft == -ft);
        assert(y.times(tilt) == z.times(tilt).negated());
    }
}

/// Twice the root of the gain, with its sign.
proof fn lemma_doubled_root(a: Single, two: Single, sign: real, t: real, d: real)
    requires
        a.finite() && two.finite(),
        slight(d),
        exact(two) == 2 as real * sign,
        sign == 1 as real || sign == -(1 as real),
        0x400_0000_0000_0000 as real * t >= 1 as real,
        t <= 0x400_0000_0000_0000 as real,
        norm(exact(a) - t) <= d * t,
    ensures
        two.times(a).finite(),
        norm(exact(two.times(a)) - sign * (2 as real * t)) <= 6 as real * (d * t),
        sign == 1 as real ==> sign * (2 as real * t) == 2 as real * t,
        sign != 1 as real ==> sign * (2 as real * t) == -(2 as real * t),
{
    let k: real = 0x100_0000 as real;
    lemma_wide();
    lemma_factor_grows(1 as real, k * d, t);
    lemma_group(k, d, t);
    assert(1 as real * t == t) by (nonlinear_arith);
    lemma_factor_grows(0x4000 as real * d, 1 as real, t);
    lemma_group(0x4000 as real, d, t);
    let e: real = exact(a);
    lemma_signed_double(sign, e);
    lemma_signed_double(sign, 2 as real * t);
    lemma_times_error(two, a);
    lemma_eps(norm(exact(two) * e));
}

/// The product with an opposite factor is the opposite product.
proof fn lemma_negated_factor(x: Single, y: Single)
    requires
        x.finite(),
        y.finite(),
    ensures
        x.times(y) == x.negated().times(y).negated(),
{
    reveal(crate::float::multiplied);
}

/// The triple that goes with the lower flank, exactly.
pub open spec fn lower_triple(t: real, c: real, s: real) -> (real, real, real) {
    ideal_triple(ideal_lower(t, c), s, 1 as real * ideal_tilt_down(t, c))
}

/// The triple that goes with the upper flank, exactly.
pub open spec fn upper_triple(t: real, c: real, s: real) -> (real, real, real) {
    ideal_triple(ideal_upper(t, c), s, (-(1 as real)) * ideal_tilt_up(t, c))
}

/// What a shelf feeds forward, exactly.
pub open spec fn ideal_forward(high: bool, t: real, c: real, s: real) -> (real, real, real) {
    if high {
        times_triple(t, upper_triple(t, c, s))
    } else {
        times_triple(t, lower_triple(t, c, s))
    }
}

/// What a shelf feeds back, exactly.
pub open spec fn ideal_back(high: bool, t: real, c: real, s: real) -> (real, real, real) {
    if high {
        lower_triple(t, c, s)
    } else {
        upper_triple(t, c, s)
    }
}

/// The coefficients of a shelf that are fed forward, before they are divided.
pub open spec fn raw_forward(high: bool, alpha: Single, c: Single, a: Single, root: Single) -> (
    Single,
    Single,
    Single,
) {
    let two = Single::from_bits(TWO);
    let up = a.plus(Single::one());
    let down = a.minus(Single::one());
    let slope = two.times(root).times(alpha);
    let lower = up.minus(down.times(c));
    let upper = up.plus(down.times(c));
    if high {
        (
            a.times(upper.plus(slope)),
            Single::from_bits(MINUS_TWO).times(a).times(down.plus(up.times(c))),
            a.times(upper.minus(slope)),
        )
    } else {
        (
            a.times(lower.plus(slope)),
            two.times(a).times(down.minus(up.times(c))),
            a.times(lower.minus(slope)),
        )
    }
}

/// The coefficients of a shelf that are fed back, before they are divided.
pub open spec fn raw_back(high: bool, alpha: Single, c: Single, a: Single, root: Single) -> (
    Single,
    Single,
    Single,
) {
    let two = Single::from_bits(TWO);
    let up = a.plus(Single::one());
    let down = a.minus(Single::one());
    let slope = two.times(root).times(alpha);
    let lower = up.minus(down.times(c));
    let upper = up.plus(down.times(c));
    if high {
        (lower.plus(slope), two.times(down.minus(up.times(c))), lower.minus(slope))
    } else {
        (
            upper.plus(slope),
            Single::from_bits(MINUS_TWO).times(down.plus(up.times(c))),
            upper.minus(slope),
        )
    }
}

/// Once is once.
pub proof fn lemma_once(x: (real, real, real))
    ensures
        1 as real * x.0 == x.0,
        1 as real * x.1 == x.1,
        1 as real * x.2 == x.2,
{
    let a: real = x.0;
    let b: real = x.1;
    let c: real = x.2;
    assert(1 as real * a == a) by (nonlinear_arith);
    assert(1 as real * b == b) by (nonlinear_arith);
    assert(1 as real * c == c) by (nonlinear_arith);
}

/// The coefficients of a shelf are near to the ideal ones for roots that are near to its own.
pub proof fn lemma_shelf_near(
    high: bool,
    alpha: Single,
    c: Single,
    a: Single,
    root: Single,
    t: real,
    r: real,
    w: real,
    d: real,
)
    requires
        alpha.finite() && c.finite() && a.finite() && root.finite(),
        counted(d, w),
        norm(exact(c)) <= 1 as real,
        flanks_stand(t, exact(c), w),
        0 as real <= exact(alpha) <= 0x10_0000 as real,
        0x400_0000_0000_0000 as real * t >= 1 as real,
        t <= 0x400_0000_0000_0000 as real,
        norm(exact(a) - t) <= d * t,
        0x4000_0000 as real * r >= 1 as real,
        r <= 0x4000_0000 as real,
        norm(exact(root) - r) <= d * r,
    ensures
        ({
            let s = exact(alpha) * (2 as real * r);
            let n = ideal_forward(high, t, exact(c), s);
            let m = ideal_back(high, t, exact(c), s);
            &&& led(n)
            &&& led(m)
            &&& near_coefficients(
                raw_forward(high, alpha, c, a, root),
                raw_back(high, alpha, c, a, root),
                1 as real,
                n,
                m,
                48 as real * (d * w),
            )
            &&& n.0 <= span() * m.0
            &&& m.0 <= span() * n.0
        }),
{
    let two = Single::from_bits(TWO);
    let minus_two = Single::from_bits(MINUS_TWO);
    let ec: real = exact(c);
    let s: real = exact(alpha) * (2 as real * r);
    let u: real = t + 1 as real;
    let k: real = 0x100_0000 as real;
    let up = a.plus(Single::one());
    let down = a.minus(Single::one());
    let slope = two.times(root).times(alpha);
    let lower = up.minus(down.times(c));
    let upper = up.plus(down.times(c));
    let tilt_down = down.minus(up.times(c));
    let tilt_up = down.plus(up.times(c));
    lemma_exact_two();
    lemma_counted(d, w);
    lemma_slope(root, alpha, r, d);
    lemma_ideal_flanks(t, ec);
    let g: real = d * u;
    lemma_factor_grows(t, u, d);
    lemma_factor_grows(1 as real, k * d, u);
    lemma_group(k, d, u);
    lemma_factor_grows(0x4000 as real * d, 1 as real, u);
    lemma_group(0x4000 as real, d, u);
    assert(1 as real * u == u) by (nonlinear_arith);
    lemma_flanks(a, c, t, g);
    let fl: real = ideal_lower(t, ec);
    let fu: real = ideal_upper(t, ec);
    let td: real = ideal_tilt_down(t, ec);
    let tu: real = ideal_tilt_up(t, ec);
    let plus: real = 1 as real;
    let minus: real = -(1 as real);
    let n = ideal_forward(high, t, ec, s);
    let m = ideal_back(high, t, ec, s);
    lemma_once(n);
    lemma_once(m);
    if high {
        lemma_fed_forward(a, upper, slope, tilt_up, minus_two, minus, fu, s, tu, t, w, d);
        lemma_fed_back(lower, slope, tilt_down, two, plus, fl, s, td, t, w, d);
        lemma_lead_ratio(t, fu, fl, s, w);
    } else {
        lemma_fed_forward(a, lower, slope, tilt_down, two, plus, fl, s, td, t, w, d);
        lemma_fed_back(upper, slope, tilt_up, minus_two, minus, fu, s, tu, t, w, d);
        lemma_lead_ratio(t, fl, fu, s, w);
    }
}

/// Neither of the two leading coefficients is larger than the other by more than the span.
proof fn lemma_lead_ratio(t: real, f: real, h: real, s: real, w: real)
    requires
        0x400_0000_0000_0000 as real * t >= 1 as real,
        t <= 0x400_0000_0000_0000 as real,
        1 as real <= w <= 1024 as real,
        f > 0 as real,
        h > 0 as real,
        s >= 0 as real,
        t + 1 as real <= w * f,
        t + 1 as real <= w * h,
        f <= 2 as real * (t + 1 as real),
        h <= 2 as real * (t + 1 as real),
    ensures
        t * (f + s) <= span() * (h + s),
        h + s <= span() * (t * (f + s)),
{
    let q: real = f + s;
    let o: real = h + s;
    let p: real = t * q;
    let b: real = 0x400_0000_0000_0000 as real;
    let c: real = 2048 as real * b;
    lemma_wide();
    assert(span() >= c) by {
        reveal(broad);
        vstd::arithmetic::power2::lemma2_to64();
        vstd::arithmetic::power2::lemma2_to64_rest();
        crate::arith::lemma_pow2_monotone(62, 69);
        crate::arith::lemma_pow2_sum(11, 58);
        crate::arith::lemma_pow2_monotone(69, 120);
        crate::accuracy::lemma_real_product(
            vstd::arithmetic::power2::pow2(11) as int,
            vstd::arithmetic::power2::pow2(58) as int,
        );
    }
    lemma_factor_grows(w, 1024 as real, f);
    lemma_factor_grows(w, 1024 as real, h);
    assert(f <= 2048 as real * h && h <= 2048 as real * f);
    lemma_factor_grows(t, b, q);
    assert(b * q <= c * o) by (nonlinear_arith)
        requires
            q <= 2048 as real * o,
            c == 2048 as real * b,
            b > 0 as real,
    ;
    lemma_factor_grows(c, span(), o);
    lemma_factor_grows(1 as real, b * t, q);
    lemma_group(b, t, q);
    assert(1 as real * q == q) by (nonlinear_arith);
    assert(c * p == 2048 as real * (b * p)) by (nonlinear_arith)
        requires
            c == 2048 as real * b,
    ;
    assert(o <= c * p);
    lemma_factor_grows(0 as real, t, q);
    assert(0 as real * q == 0 as real) by (nonlinear_arith);
    lemma_factor_grows(c, span(), p);
}

/// The ideal shelf for the inverse root is the other one, scaled.
proof fn lemma_inverse_flanks(t: real, v: real, c: real)
    requires
        v * t == 1 as real,
    ensures
        ideal_lower(v, c) == v * ideal_upper(t, c),
        ideal_upper(v, c) == v * ideal_lower(t, c),
        ideal_tilt_down(v, c) == -(v * ideal_tilt_up(t, c)),
        ideal_tilt_up(v, c) == -(v * ideal_tilt_down(t, c)),
{
    let w: real = t - 1 as real;
    let u: real = t + 1 as real;
    let wc: real = w * c;
    let uc: real = u * c;
    lemma_spread(t, 1 as real, v);
    assert(v * 1 as real == v) by (nonlinear_arith);
    assert(v * t == t * v) by (nonlinear_arith);
    assert(v * u == 1 as real + v);
    assert(v * w == 1 as real - v);
    lemma_group(v, w, c);
    lemma_group(v, u, c);
    lemma_spread(u, wc, v);
    lemma_spread(w, uc, v);
    lemma_spread(1 as real, v, c);
    lemma_spread(v, 1 as real, c);
}

/// Two roots of numbers that are nearly inverse.
proof fn lemma_roots(a: real, b: real, p: real, q: real, d: real)
    requires
        a > 0 as real,
        p > 0 as real,
        q > 0 as real,
        d > 0 as real,
        0x4000 as real * d <= 1 as real,
        norm(a * b - 1 as real) <= d,
        norm(p * p - a) <= d * a,
        norm(q * q - b) <= d * b,
    ensures
        norm(q * a - p) <= (5 as real * d) * p,
{
    let qa: real = q * a;
    let pp: real = p * p;
    let da: real = d * a;
    let ab: real = a * b;
    let aa: real = a * a;
    lemma_factor_grows(0x4000 as real * d, 1 as real, a);
    lemma_group(0x4000 as real, d, a);
    assert(1 as real * a == a) by (nonlinear_arith);
    // the square of the other root, scaled
    let off: real = q * q - b;
    assert(aa > 0 as real) by (nonlinear_arith)
        requires
            aa == a * a,
            a > 0 as real,
    ;
    lemma_norm_product(off, aa);
    lemma_factor_grows(norm(off), d * b, aa);
    lemma_spread(q * q, b, aa);
    assert((q * q) * aa == qa * qa) by (nonlinear_arith)
        requires
            aa == a * a,
            qa == q * a,
    ;
    assert(b * aa == ab * a) by (nonlinear_arith)
        requires
            aa == a * a,
            ab == a * b,
    ;
    assert((d * b) * aa == ab * da) by (nonlinear_arith)
        requires
            aa == a * a,
            ab == a * b,
            da == d * a,
    ;
    lemma_factor_grows(ab, 2 as real, da);
    assert(norm(qa * qa - ab * a) <= 2 as real * da) by {
        assert(da * ab == ab * da && da * 2 as real == 2 as real * da) by (nonlinear_arith);
    }
    let near: real = ab - 1 as real;
    lemma_spread(ab, 1 as real, a);
    lemma_norm_product(near, a);
    lemma_factor_grows(norm(near), d, a);
    assert(norm(ab * a - a) <= da);
    assert(norm(qa * qa - pp) <= 4 as real * da);
    assert(4 as real * da <= 5 as real * (d * pp)) by {
        let dpp: real = d * pp;
        lemma_factor_grows(4 as real * a, 5 as real * pp, d);
        assert(d * (4 as real * a) == 4 as real * da && d * (5 as real * pp) == 5 as real * dpp)
            by (nonlinear_arith)
            requires
                da == d * a,
                dpp == d * pp,
        ;
    }
    // from the squares to the roots
    let x: real = qa - p;
    let y: real = qa + p;
    assert(x * y == qa * qa - pp) by (nonlinear_arith)
        requires
            x == qa - p,
            y == qa + p,
            pp == p * p,
    ;
    lemma_factor_grows(0 as real, q, a);
    assert(0 as real * a == 0 as real) by (nonlinear_arith);
    lemma_norm_product(x, y);
    lemma_norm_product(y, x);
    lemma_factor_grows(p, y, norm(x));
    let d5: real = 5 as real * d;
    assert((d5 * p) * p == 5 as real * (d * pp)) by (nonlinear_arith)
        requires
            d5 == 5 as real * d,
            pp == p * p,
    ;
    assert(norm(x) * p <= (d5 * p) * p);
    assert(norm(x) <= d5 * p) by (nonlinear_arith)
        requires
            norm(x) * p <= (d5 * p) * p,
            p > 0 as real,
    ;
}

/// A root lies within the roots of the limits.
proof fn lemma_root_limit(a: real, p: real)
    requires
        0x400_0000_0000_0000 as real * a >= 1 as real,
        a <= 0x400_0000_0000_0000 as real,
        p > 0 as real,
        2 as real * (p * p) >= a,
        p * p <= 2 as real * a,
    ensures
        0x4000_0000 as real * p >= 1 as real,
        p <= 0x4000_0000 as real,
{
    let n: real = 0x4000_0000 as real;
    let x: real = n * p;
    let pp: real = p * p;
    assert(x * x == (n * n) * pp) by (nonlinear_arith)
        requires
            x == n * p,
            pp == p * p,
    ;
    assert(n * n == 0x1000_0000_0000_0000 as real) by (nonlinear_arith)
        requires
            n == 0x4000_0000 as real,
    ;
    assert(x * x >= 1 as real);
    assert(x >= 1 as real) by (nonlinear_arith)
        requires
            x * x >= 1 as real,
            x > 0 as real,
    ;
    assert(pp <= n * n);
    assert(p <= n) by (nonlinear_arith)
        requires
            p * p <= n * n,
            p > 0 as real,
            n > 0 as real,
    ;
}

/// The roots lie within their limits.
proof fn lemma_root_limits(a: real, p: real, v: real, d: real)
    requires
        0x400_0000_0000_0000 as real * a >= 1 as real,
        a <= 0x400_0000_0000_0000 as real,
        v * a == 1 as real,
        v > 0 as real,
        p > 0 as real,
        d > 0 as real,
        0x4000 as real * d <= 1 as real,
        norm(p * p - a) <= d * a,
    ensures
        0x4000_0000 as real * p >= 1 as real,
        p <= 0x4000_0000 as real,
        0x4000_0000 as real * (p * v) >= 1 as real,
        p * v <= 0x4000_0000 as real,
        0x400_0000_0000_0000 as real * v >= 1 as real,
        v <= 0x400_0000_0000_0000 as real,
{
    let b: real = 0x400_0000_0000_0000 as real;
    lemma_factor_grows(0x4000 as real * d, 1 as real, a);
    lemma_group(0x4000 as real, d, a);
    assert(1 as real * a == a) by (nonlinear_arith);
    let pp: real = p * p;
    assert(2 as real * pp >= a && pp <= 2 as real * a);
    lemma_root_limit(a, p);
    lemma_factor_grows(a, b, v);
    lemma_factor_grows(1 as real, b * a, v);
    lemma_group(v, b, a);
    assert(v * 1 as real == v && v * b == b * v && (v * a) * b == b * (v * a)) by (nonlinear_arith);
    // the square of the inverse root, counted in inverses
    let r: real = p * v;
    let rr: real = r * r;
    assert(r > 0 as real) by (nonlinear_arith)
        requires
            r == p * v,
            p > 0 as real,
            v > 0 as real,
    ;
    let vv: real = v * v;
    assert(rr == pp * vv) by (nonlinear_arith)
        requires
            rr == r * r,
            r == p * v,
            pp == p * p,
            vv == v * v,
    ;
    assert(a * vv == v) by {
        lemma_group(a, v, v);
        assert(a * v == v * a) by (nonlinear_arith);
        assert(1 as real * v == v) by (nonlinear_arith);
    }
    assert(vv > 0 as real) by (nonlinear_arith)
        requires
            vv == v * v,
            v > 0 as real,
    ;
    lemma_factor_grows(a, 2 as real * pp, vv);
    lemma_factor_grows(pp, 2 as real * a, vv);
    assert((2 as real * pp) * vv == 2 as real * (pp * vv) && (2 as real * a) * vv == 2 as real * (a
        * vv)) by (nonlinear_arith);
    assert(2 as real * rr >= v && rr <= 2 as real * v);
    lemma_root_limit(v, r);
}

/// A triple that starts with a flank and a slope, for the inverse root.
proof fn lemma_inverse_triple(v: real, t: real, f: real, s: real, tilt: real)
    requires
        v * t == 1 as real,
    ensures
        times_triple(v, ideal_triple(v * f, v * s, v * tilt)) == times_triple(
            v * v,
            ideal_triple(f, s, tilt),
        ),
        ideal_triple(v * f, v * s, v * tilt) == times_triple(
            v * v,
            times_triple(t, ideal_triple(f, s, tilt)),
        ),
{
    let l: real = v * v;
    let sum: real = f + s;
    let rest: real = f - s;
    let mid: real = 2 as real * tilt;
    lemma_spread(f, s, v);
    assert(2 as real * (v * tilt) == v * mid) by (nonlinear_arith)
        requires
            mid == 2 as real * tilt,
    ;
    assert(v * (v * sum) == l * sum && v * (v * rest) == l * rest && v * (v * mid) == l * mid) by {
        lemma_group(v, v, sum);
        lemma_group(v, v, rest);
        lemma_group(v, v, mid);
    }
    lemma_unscaled(v, t, sum);
    lemma_unscaled(v, t, rest);
    lemma_unscaled(v, t, mid);
}

/// Scaling by an inverse squared and by the number is scaling by the inverse.
proof fn lemma_unscaled(v: real, t: real, x: real)
    requires
        v * t == 1 as real,
    ensures
        (v * v) * (t * x) == v * x,
{
    let tx: real = t * x;
    lemma_group(v, t, x);
    lemma_group(v, v, tx);
    assert(1 as real * x == x) by (nonlinear_arith);
    assert(v * tx == x);
}

/// The ideal shelf for the inverse root has what is fed forward and what is fed back exchanged.
proof fn lemma_inverse_shelf(high: bool, t: real, v: real, c: real, s: real)
    requires
        v * t == 1 as real,
    ensures
        ideal_forward(high, v, c, v * s) == times_triple(v * v, ideal_back(high, t, c, s)),
        ideal_back(high, v, c, v * s) == times_triple(v * v, ideal_forward(high, t, c, s)),
{
    lemma_inverse_flanks(t, v, c);
    let td: real = ideal_tilt_down(t, c);
    let tu: real = ideal_tilt_up(t, c);
    let one: real = 1 as real;
    lemma_signed_double(one, td);
    lemma_signed_double(-one, tu);
    lemma_signed_double(one, ideal_tilt_down(v, c));
    lemma_signed_double(-one, ideal_tilt_up(v, c));
    assert(v * (-tu) == -(v * tu)) by (nonlinear_arith);
    lemma_inverse_triple(v, t, ideal_upper(t, c), s, -tu);
    lemma_inverse_triple(v, t, ideal_lower(t, c), s, td);
}

/// A positive number whose square is `a`, up to `d`.
pub open spec fn is_root(root: Single, a: Single, d: real) -> bool {
    &&& root.finite()
    &&& exact(root) > 0 as real
    &&& norm(exact(root) * exact(root) - exact(a)) <= d * exact(a)
}

/// A shelf that cuts undoes one that boosts by as much, up to rounding, where the roots of the two
/// gains are inverse, and their own roots are accurate, up to `d`. The error grows with the gain as
/// `w` does, which says how much smaller a flank may be than what it is the difference of: see
/// `law_flanks_stand_by_the_gain`.
pub proof fn law_shelf_cut_undoes_boost(
    high: bool,
    sin_w0: Single,
    cos_w0: Single,
    a: Single,
    b: Single,
    root_a: Single,
    root_b: Single,
    w: real,
    d: real,
)
    requires
        counted(5 as real * d, w),
        a.finite(),
        0x400_0000_0000_0000 as real * exact(a) >= 1 as real,
        exact(a) <= 0x400_0000_0000_0000 as real,
        flanks_stand(exact(a), exact(cos_w0), w),
        b.finite(),
        reciprocal(a, b, d),
        is_root(root_a, a, d),
        is_root(root_b, b, d),
        cos_w0.abs().bits <= Single::one().bits,
        ({
            let alpha = sin_w0.over(Single::from_bits(TWO)).times(Single::from_bits(SQRT_TWO));
            alpha.finite() && 0 as real <= exact(alpha) <= 0x10_0000 as real
        }),
    ensures
        undoes(
            shelf_taps(high, sin_w0, cos_w0, b, root_b),
            shelf_taps(high, sin_w0, cos_w0, a, root_a),
            240 as real * (d * w),
        ),
{
    let alpha = sin_w0.over(Single::from_bits(TWO)).times(Single::from_bits(SQRT_TWO));
    let c = cos_w0;
    let x: real = exact(alpha);
    let ec: real = exact(c);
    let t: real = exact(a);
    let eb: real = exact(b);
    let v: real = 1 as real / t;
    let p: real = exact(root_a);
    let q: real = exact(root_b);
    let d5: real = 5 as real * d;
    let l: real = v * v;
    lemma_counted(d5, w);
    lemma_twice_cosine(c);
    lemma_inverse(t);
    lemma_root_limits(t, p, v, d);
    lemma_inverse_stands(t, v, ec, w);
    // the other root
    lemma_near_inverse(t, eb, d);
    lemma_factor_grows(d, d5, v);
    lemma_roots(t, eb, p, q, d);
    let r: real = p * v;
    let off: real = q * t - p;
    lemma_spread(q * t, p, v);
    lemma_norm_product(off, v);
    lemma_factor_grows(norm(off), d5 * p, v);
    lemma_group(q, t, v);
    lemma_group(d5, p, v);
    assert(t * v == v * t) by (nonlinear_arith);
    assert(q * 1 as real == q) by (nonlinear_arith);
    assert(norm(q - r) <= d5 * r);
    // the two shelves
    lemma_factor_grows(0 as real, d5, t);
    lemma_factor_grows(0 as real, d5, p);
    assert(0 as real * t == 0 as real && 0 as real * p == 0 as real) by (nonlinear_arith);
    lemma_shelf_near(high, alpha, c, a, root_a, t, p, w, d5);
    lemma_shelf_near(high, alpha, c, b, root_b, v, r, w, d5);
    let s: real = x * (2 as real * p);
    assert(x * (2 as real * r) == v * s) by (nonlinear_arith)
        requires
            r == p * v,
            s == x * (2 as real * p),
    ;
    lemma_inverse_shelf(high, t, v, ec, s);
    let n = ideal_forward(high, t, ec, s);
    let m = ideal_back(high, t, ec, s);
    let e: real = 48 as real * (d5 * w);
    assert(e == 240 as real * (d * w)) by (nonlinear_arith)
        requires
            d5 == 5 as real * d,
            e == 48 as real * (d5 * w),
    ;
    lemma_once(times_triple(l, n));
    lemma_once(times_triple(l, m));
    assert(l > 0 as real) by (nonlinear_arith)
        requires
            l == v * v,
            v > 0 as real,
    ;
    let pb = raw_forward(high, alpha, c, a, root_a);
    let pa = raw_back(high, alpha, c, a, root_a);
    let qb = raw_forward(high, alpha, c, b, root_b);
    let qa = raw_back(high, alpha, c, b, root_b);
    assert(near_coefficients(qb, qa, l, m, n, e));
    lemma_exchanged_sections(pb, pa, qb, qa, l, n, m, e);
}

/// The flanks for the inverse root stand as those for the root do.
proof fn lemma_inverse_stands(t: real, v: real, c: real, w: real)
    requires
        v * t == 1 as real,
        v > 0 as real,
        flanks_stand(t, c, w),
    ensures
        flanks_stand(v, c, w),
{
    let lower: real = ideal_lower(t, c);
    let upper: real = ideal_upper(t, c);
    let u: real = t + 1 as real;
    lemma_inverse_flanks(t, v, c);
    lemma_spread(t, 1 as real, v);
    assert(v * 1 as real == v && v * t == t * v) by (nonlinear_arith);
    assert(v * u == v + 1 as real);
    lemma_factor_grows(u, w * lower, v);
    lemma_factor_grows(u, w * upper, v);
    assert(v * (w * lower) == w * (v * lower)) by (nonlinear_arith);
    assert(v * (w * upper) == w * (v * upper)) by (nonlinear_arith);
}

/// The bandwidth of a band that the host's sine gives.
pub open spec fn bandwidth(band: EqBand, sin_w0: Single) -> Single {
    if band.kind is Peak {
        sin_w0.over(Single::from_bits(TWO).times(band.q))
    } else {
        sin_w0.over(Single::from_bits(TWO)).times(Single::from_bits(SQRT_TWO))
    }
}

/// What the host answers for a band is accurate up to `d`: the powers for the gain and for its
/// opposite are finite and inverse, square roots are roots, a cosine is at most one, and the sine,
/// of a frequency below half the sample rate, is not negative.
pub open spec fn accurate<M: Elementary>(m: &M, band: EqBand, sample_rate: Single, d: real) -> bool {
    let w0 = angle(band.freq_hz, sample_rate);
    let x = band.gain_db.over(Single::from_bits(FORTY));
    &&& forall|r: Single, s: Single| #[trigger]
        call_ensures(M::power_of_ten, (m, x), r) && #[trigger] call_ensures(
            M::power_of_ten,
            (m, x.negated()),
            s,
        ) ==> r.finite() && exact(r) > 0 as real && s.finite() && reciprocal(r, s, d)
    &&& forall|a: Single, r: Single| #[trigger]
        call_ensures(M::sqrt, (m, a), r) && a.finite() && exact(a) > 0 as real ==> is_root(r, a, d)
    &&& forall|r: Single| #[trigger]
        call_ensures(M::cos, (m, w0), r) ==> r.abs().bits <= Single::one().bits
    &&& forall|r: Single| #[trigger]
        call_ensures(M::sin, (m, w0), r) ==> bandwidth(band, r).finite() && exact(
            bandwidth(band, r),
        ) >= 0 as real
}

/// With the bandwidth `alpha`, the cosine `c` and the root `a` of the gain no coefficient of a band
/// becomes infinite, and no flank of a shelf is smaller than `w` says.
pub open spec fn workable(kind: BandKind, alpha: real, c: real, a: real, w: real) -> bool {
    if kind is Peak {
        alpha * a <= broad() && alpha / a <= broad()
    } else {
        &&& alpha <= 0x10_0000 as real
        &&& 0x400_0000_0000_0000 as real * a >= 1 as real
        &&& a <= 0x400_0000_0000_0000 as real
        &&& flanks_stand(a, c, w)
    }
}

/// What the host answers for a band is workable.
pub open spec fn answers_work<M: Elementary>(
    m: &M,
    band: EqBand,
    sample_rate: Single,
    w: real,
) -> bool {
    let w0 = angle(band.freq_hz, sample_rate);
    let x = band.gain_db.over(Single::from_bits(FORTY));
    forall|s: Single, c: Single, a: Single| #[trigger]
        call_ensures(M::sin, (m, w0), s) && #[trigger] call_ensures(M::cos, (m, w0), c)
            && #[trigger] call_ensures(M::power_of_ten, (m, x), a) ==> workable(
            band.kind,
            exact(bandwidth(band, s)),
            exact(c),
            exact(a),
            w,
        )
}

/// What the host answered for a peak band.
proof fn lemma_peak_answers<M: Elementary>(m: &M, band: EqBand, sample_rate: Single) -> (r: (
    Single,
    Single,
    Single,
))
    requires
        band.tuned(m, sample_rate),
        band.kind is Peak,
    ensures
        call_ensures(M::sin, (m, angle(band.freq_hz, sample_rate)), r.0),
        call_ensures(M::cos, (m, angle(band.freq_hz, sample_rate)), r.1),
        call_ensures(M::power_of_ten, (m, band.gain_db.over(Single::from_bits(FORTY))), r.2),
        band.taps == peak_taps(band.q, r.0, r.1, r.2),
{
    let w0 = angle(band.freq_hz, sample_rate);
    let x = band.gain_db.over(Single::from_bits(FORTY));
    choose|s: Single, c: Single, a: Single|
        {
            &&& #[trigger] call_ensures(M::sin, (m, w0), s)
            &&& #[trigger] call_ensures(M::cos, (m, w0), c)
            &&& #[trigger] call_ensures(M::power_of_ten, (m, x), a)
            &&& band.taps == peak_taps(band.q, s, c, a)
        }
}

/// What the host answered for a shelf.
proof fn lemma_shelf_answers<M: Elementary>(m: &M, band: EqBand, sample_rate: Single) -> (r: (
    Single,
    Single,
    Single,
    Single,
))
    requires
        band.tuned(m, sample_rate),
        !(band.kind is Peak),
    ensures
        call_ensures(M::sin, (m, angle(band.freq_hz, sample_rate)), r.0),
        call_ensures(M::cos, (m, angle(band.freq_hz, sample_rate)), r.1),
        call_ensures(M::power_of_ten, (m, band.gain_db.over(Single::from_bits(FORTY))), r.2),
        call_ensures(M::sqrt, (m, r.2), r.3),
        band.taps == shelf_taps(band.kind is HighShelf, r.0, r.1, r.2, r.3),
{
    let w0 = angle(band.freq_hz, sample_rate);
    let x = band.gain_db.over(Single::from_bits(FORTY));
    let (s, c, a) = choose|s: Single, c: Single, a: Single|
        {
            &&& #[trigger] call_ensures(M::sin, (m, w0), s)
            &&& #[trigger] call_ensures(M::cos, (m, w0), c)
            &&& #[trigger] call_ensures(M::power_of_ten, (m, x), a)
            &&& exists|root: Single|
                #[trigger] call_ensures(M::sqrt, (m, a), root) && band.taps == shelf_taps(
                    band.kind is HighShelf,
                    s,
                    c,
                    a,
                    root,
                )
        };
    let root = choose|root: Single|
        #[trigger] call_ensures(M::sqrt, (m, a), root) && band.taps == shelf_taps(
            band.kind is HighShelf,
            s,
            c,
            a,
            root,
        );
    (s, c, a, root)
}

/// The opposite gain has the opposite quotient.
proof fn lemma_opposite_gain(g: Single)
    requires
        !g.nan(),
    ensures
        g.negated().over(Single::from_bits(FORTY)) == g.over(Single::from_bits(FORTY)).negated(),
{
    reveal(crate::float::divided);
}

/// A cut undoes the boost by as much: with a steady host whose answers are accurate up to `d`, the
/// band that cuts feeds forward what the band that boosts feeds back, and the other way round, up
/// to rounding and `d`. For a peak band the error is the same for every gain; for a shelf it grows
/// with the gain, as `w` does.
pub proof fn law_cut_undoes_boost<M: Elementary>(
    m: &M,
    boost: EqBand,
    cut: EqBand,
    sample_rate: Single,
    w: real,
    d: real,
)
    requires
        steady(m),
        boost.tuned(m, sample_rate),
        cut.tuned(m, sample_rate),
        boost.kind == cut.kind,
        boost.freq_hz == cut.freq_hz,
        boost.q == cut.q,
        !boost.gain_db.nan(),
        cut.gain_db == boost.gain_db.negated(),
        accurate(m, boost, sample_rate, d),
        answers_work(m, boost, sample_rate, w),
        if boost.kind is Peak {
            slight(d)
        } else {
            counted(5 as real * d, w)
        },
    ensures
        undoes(
            cut.taps,
            boost.taps,
            if boost.kind is Peak {
                8 as real * d
            } else {
                240 as real * (d * w)
            },
        ),
{
    lemma_opposite_gain(boost.gain_db);
    if boost.kind is Peak {
        let (s, c, a) = lemma_peak_answers(m, boost, sample_rate);
        let (s2, c2, b) = lemma_peak_answers(m, cut, sample_rate);
        assert(s == s2 && c == c2);
        assert(bandwidth(boost, s).finite());
        assert(workable(boost.kind, exact(bandwidth(boost, s)), exact(c), exact(a), w));
        law_peak_cut_undoes_boost(boost.q, s, c, a, b, d);
    } else {
        let (s, c, a, root_a) = lemma_shelf_answers(m, boost, sample_rate);
        let (s2, c2, b, root_b) = lemma_shelf_answers(m, cut, sample_rate);
        assert(s == s2 && c == c2);
        assert(bandwidth(boost, s).finite());
        assert(workable(boost.kind, exact(bandwidth(boost, s)), exact(c), exact(a), w));
        lemma_counted(5 as real * d, w);
        lemma_inverse_is_positive(exact(a), exact(b), d);
        law_shelf_cut_undoes_boost(boost.kind is HighShelf, s, c, a, b, root_a, root_b, w, d);
    }
}

/// What is nearly inverse to a positive number is positive.
proof fn lemma_inverse_is_positive(a: real, b: real, d: real)
    requires
        a > 0 as real,
        2 as real * d <= 1 as real,
        norm(a * b - 1 as real) <= d,
    ensures
        b > 0 as real,
{
    assert(b > 0 as real) by (nonlinear_arith)
        requires
            a * b > 0 as real,
            a > 0 as real,
    ;
}

} // verus!
