//! Which frequencies shelves boost and cut.
use vstd::arithmetic::power2::{lemma2_to64, pow2};
use vstd::prelude::*;

use super::biquad::{angle, Taps};
use super::eq::{is_band, shelf_taps, BandKind};
use super::laws_eq::{lemma_exact_two, lemma_twice_cosine, lemma_wide};
use super::laws_levels::{
    is_pi, is_power_of_ten, lemma_constant, lemma_nonneg_product, lemma_rounded_product,
    lemma_rounded_quotient, powers_follow, usable_level,
};
use super::laws_response::{
    is_angle, is_section, lemma_angle, lemma_fortieth, lemma_not_below_zero, lemma_on_the_circle,
    lemma_section_of, power_at, turns_follow, usable_frequency,
};
use super::laws_shelf::{
    ideal_back, ideal_forward, ideal_lower, ideal_tilt_down, ideal_tilt_up, ideal_triple,
    ideal_upper, is_root, law_flanks_stand_by_the_gain, lemma_shelf_near, raw_back, raw_forward,
    times_triple,
};
use super::level::Elementary;
use crate::accuracy::{
    exact, lemma_eps, lemma_factor_grows, lemma_group, lemma_norm_product, lemma_over_error,
    lemma_spread, lemma_times_error, norm, tiny,
};
use crate::numbers::{FORTY, SQRT_TWO, TWO};
use crate::single::Single;

verus! {

/// What a shelf passes on, where `u` and `v` say how far a frequency is above and below the corner:
/// with the cosines `c` of the corner and `x` of the frequency.
pub open spec fn tilted(t: real, c: real, x: real, down: bool) -> real {
    let u = (1 as real + c) * (1 as real - x);
    let v = (1 as real - c) * (1 as real + x);
    if down {
        t * v - u
    } else {
        v - t * u
    }
}

/// The power of an ideal flank, slope and tilt.
proof fn lemma_triple_power(f: real, s: real, tilt: real, w: real, x: real)
    requires
        f * x + tilt == w,
    ensures
        power_at(ideal_triple(f, s, tilt), x) == 4 as real * (w * w + (s * s) * (1 as real - x * x)),
{
    let n = ideal_triple(f, s, tilt);
    let y: real = 1 as real - x * x;
    let f2: real = 2 as real * f;
    let re: real = f2 * x + 2 as real * tilt;
    let im: real = 2 as real * s;
    assert(n.0 + n.2 == f2 && n.0 - n.2 == im);
    assert(f2 * x == 2 as real * (f * x)) by (nonlinear_arith)
        requires
            f2 == 2 as real * f,
    ;
    assert(re == 2 as real * w);
    assert(re * re == 4 as real * (w * w)) by (nonlinear_arith)
        requires
            re == 2 as real * w,
    ;
    assert((im * im) * y == 4 as real * ((s * s) * y)) by (nonlinear_arith)
        requires
            im == 2 as real * s,
    ;
}

/// A triple times a number has that number's square times the power.
proof fn lemma_times_power(t: real, n: (real, real, real), x: real)
    ensures
        power_at(times_triple(t, n), x) == (t * t) * power_at(n, x),
{
    let re: real = (n.0 + n.2) * x + n.1;
    let im: real = n.0 - n.2;
    let y: real = 1 as real - x * x;
    let a: real = n.0;
    let b: real = n.1;
    let c: real = n.2;
    let re2: real = (t * a + t * c) * x + t * b;
    let ac: real = a + c;
    let ta: real = t * a;
    let tc: real = t * c;
    lemma_spread(a, c, t);
    lemma_group(t, ac, x);
    lemma_spread(ac * x, b, t);
    assert(ta + tc == t * ac);
    assert(re2 == t * re);
    assert(t * a - t * c == t * im) by (nonlinear_arith)
        requires
            im == a - c,
    ;
    let ti: real = t * im;
    let tt: real = t * t;
    assert(re2 * re2 == tt * (re * re)) by (nonlinear_arith)
        requires
            re2 == t * re,
            tt == t * t,
    ;
    assert((ti * ti) * y == tt * ((im * im) * y)) by (nonlinear_arith)
        requires
            ti == t * im,
            tt == t * t,
    ;
    lemma_spread(re * re, (im * im) * y, tt);
}

/// The two flanks with their tilts, at one frequency.
proof fn lemma_flanks_at(t: real, c: real, x: real)
    ensures
        ideal_lower(t, c) * x + ideal_tilt_down(t, c) == tilted(t, c, x, true),
        ideal_upper(t, c) * x - ideal_tilt_up(t, c) == tilted(t, c, x, false),
{
    let p: real = t + 1 as real;
    let q: real = t - 1 as real;
    let tx: real = t * x;
    let tc: real = t * c;
    let cx: real = c * x;
    let tcx: real = t * cx;
    assert(p * x == tx + x) by (nonlinear_arith)
        requires
            p == t + 1 as real,
            tx == t * x,
    ;
    assert(q * c == tc - c) by (nonlinear_arith)
        requires
            q == t - 1 as real,
            tc == t * c,
    ;
    assert(p * c == tc + c) by (nonlinear_arith)
        requires
            p == t + 1 as real,
            tc == t * c,
    ;
    let qc: real = q * c;
    lemma_group(t, c, x);
    lemma_spread(tc, c, x);
    assert(qc * x == tcx - cx);
    lemma_spread(p, qc, x);
    let u: real = (1 as real + c) * (1 as real - x);
    let v: real = (1 as real - c) * (1 as real + x);
    assert(u == 1 as real - x + c - cx) by (nonlinear_arith)
        requires
            u == (1 as real + c) * (1 as real - x),
            cx == c * x,
    ;
    assert(v == 1 as real + x - c - cx) by (nonlinear_arith)
        requires
            v == (1 as real - c) * (1 as real + x),
            cx == c * x,
    ;
    let one: real = 1 as real;
    assert(t * (one + x - c - cx) == t + tx - tc - tcx) by {
        lemma_spread(one + x - c, cx, t);
        lemma_spread(one + x, c, t);
        lemma_spread(one, x, t);
        assert(t * 1 as real == t) by (nonlinear_arith);
    }
    assert(t * (one - x + c - cx) == t - tx + tc - tcx) by {
        lemma_spread(one - x + c, cx, t);
        lemma_spread(one - x, c, t);
        lemma_spread(one, x, t);
        assert(t * 1 as real == t) by (nonlinear_arith);
    }
}

/// The powers of an ideal shelf.
proof fn lemma_shelf_power(high: bool, t: real, c: real, s: real, x: real)
    ensures
        ({
            let y = (s * s) * (1 as real - x * x);
            let w1 = tilted(t, c, x, !high);
            let w2 = tilted(t, c, x, high);
            &&& power_at(ideal_forward(high, t, c, s), x) == (t * t) * (4 as real * (w1 * w1 + y))
            &&& power_at(ideal_back(high, t, c, s), x) == 4 as real * (w2 * w2 + y)
        }),
{
    let down: real = tilted(t, c, x, true);
    let up: real = tilted(t, c, x, false);
    let lower: real = ideal_lower(t, c);
    let upper: real = ideal_upper(t, c);
    let td: real = ideal_tilt_down(t, c);
    let tu: real = ideal_tilt_up(t, c);
    let d1: real = 1 as real * td;
    let u1: real = (-(1 as real)) * tu;
    assert(1 as real * td == td) by (nonlinear_arith);
    assert((-(1 as real)) * tu == -tu) by (nonlinear_arith);
    lemma_flanks_at(t, c, x);
    lemma_triple_power(lower, s, d1, down, x);
    lemma_triple_power(upper, s, u1, up, x);
    lemma_times_power(t, ideal_triple(lower, s, d1), x);
    lemma_times_power(t, ideal_triple(upper, s, u1), x);
}

/// The host's square roots are accurate to the share `d` of their squares.
pub open spec fn roots_follow<M: Elementary>(m: &M, d: real) -> bool {
    forall|a: Single, r: Single| #[trigger]
        call_ensures(M::sqrt, (m, a), r) && a.finite() && exact(a) > 0 as real ==> is_root(r, a, d)
}

/// The constant for the square root of two.
proof fn lemma_root_of_two()
    ensures
        Single::from_bits(SQRT_TWO).finite(),
        1 as real <= exact(Single::from_bits(SQRT_TWO)) <= 3 as real / 2 as real,
        0x100_0000 as real * norm(
            exact(Single::from_bits(SQRT_TWO)) * exact(Single::from_bits(SQRT_TWO)) - 2 as real,
        ) <= 2 as real,
{
    let c = Single::from_bits(SQRT_TWO);
    lemma2_to64();
    lemma_constant(SQRT_TWO, 126, 0xb5_04f3, 23);
    assert(pow2(23) == 0x80_0000);
    let e: real = exact(c);
    assert(e * 0x80_0000 as real == 0xb5_04f3 as real);
    let ee: real = e * e;
    assert(0x4000_0000_0000 as real * ee == 0xb5_04f3 as real * 0xb5_04f3 as real)
        by (nonlinear_arith)
        requires
            ee == e * e,
            e * 0x80_0000 as real == 0xb5_04f3 as real,
    ;
}

/// Half a sine times the square root of two.
proof fn lemma_half_width(s: Single)
    requires
        s.finite(),
        0 as real <= exact(s) <= 2 as real,
    ensures
        ({
            let alpha = s.over(Single::from_bits(TWO)).times(Single::from_bits(SQRT_TWO));
            let x = exact(s) * exact(Single::from_bits(SQRT_TWO));
            &&& alpha.finite()
            &&& 0 as real <= exact(alpha) <= 2 as real
            &&& norm(2 as real * exact(alpha) - x) <= 3 as real * x / 0x100_0000 as real + 8 as real
                * tiny()
        }),
{
    let two = Single::from_bits(TWO);
    let rt = Single::from_bits(SQRT_TWO);
    let half = s.over(two);
    let alpha = half.times(rt);
    let es: real = exact(s);
    let g: real = exact(rt);
    let h: real = exact(half);
    let k: real = 0x100_0000 as real;
    let t: real = tiny();
    lemma_wide();
    lemma_exact_two();
    lemma_root_of_two();
    lemma_rounded_quotient(s, two);
    lemma_over_error(s, two);
    lemma_eps(norm(es / 2 as real));
    assert(h >= -t) by {
        if norm(h - es / 2 as real) <= t {
        } else {
            assert(k * norm(h - es / 2 as real) <= es / 2 as real);
        }
    }
    lemma_not_below_zero(half);
    let hg: real = h * g;
    let off: real = h - es / 2 as real;
    lemma_spread(h, es / 2 as real, g);
    lemma_norm_product(off, g);
    lemma_factor_grows(k * norm(off), es / 2 as real + k * t, g);
    lemma_spread(es / 2 as real, k * t, g);
    lemma_group(k, norm(off), g);
    let x: real = es * g;
    assert((es / 2 as real) * g == x / 2 as real) by (nonlinear_arith)
        requires
            x == es * g,
    ;
    lemma_factor_grows(g, 3 as real / 2 as real, k * t);
    assert((k * t) * (3 as real / 2 as real) == 3 as real * (k * t) / 2 as real)
        by (nonlinear_arith);
    assert(k * norm(hg - x / 2 as real) <= x / 2 as real + 2 as real * (k * t));
    lemma_nonneg_product(h, g);
    lemma_nonneg_product(es, g);
    lemma_factor_grows(es, 2 as real, g);
    lemma_rounded_product(half, rt);
    lemma_times_error(half, rt);
    lemma_eps(norm(hg));
    let a: real = exact(alpha);
    assert(a >= -t) by {
        if norm(a - hg) <= t {
        } else {
            assert(k * norm(a - hg) <= hg);
        }
    }
    lemma_not_below_zero(alpha);
}

/// The root of the root of a gain lies within its limits.
proof fn lemma_root_range(a: real, r: real, w: real, d: real)
    requires
        r > 0 as real,
        a > 0 as real,
        1 as real <= w <= 1024 as real,
        a <= w,
        w * a >= 1 as real,
        0 as real <= d,
        16 as real * d <= 1 as real,
        norm(r * r - a) <= d * a,
    ensures
        0x4000_0000 as real * r >= 1 as real,
        r <= 0x4000_0000 as real,
{
    lemma_factor_grows(d, 1 as real / 16 as real, a);
    assert((1 as real / 16 as real) * a == a / 16 as real) by (nonlinear_arith);
    lemma_factor_grows(w, 1024 as real, a);
    assert(1024 as real * a >= 1 as real);
    let rr: real = r * r;
    assert(2048 as real * rr >= 1 as real);
    assert(rr <= 2048 as real);
    assert(r <= 64 as real) by (nonlinear_arith)
        requires
            r * r <= 2048 as real,
            r > 0 as real,
    ;
    lemma_factor_grows(r, 64 as real, r);
    assert(64 as real * r >= rr);
}

/// The coefficients of a shelf are those of a section that boosts or cuts on one side of the
/// frequency that was set, and leaves the other side alone. With the cosine `c` of that frequency
/// and the cosine `x` of any other, the powers fed forward and back are four times the squares of
/// `tilted` and of the slope, times `1 - x^2`; forward they are times the square of `a`, the root
/// of the linear gain that was set. So a low shelf has the power one at the top, where `x` is
/// minus one, and the fourth power of `a`, the square of the gain, at the frequency zero; a high
/// shelf has it the other way round. The slope is twice `alpha` times the root of `a`, and `alpha`
/// half the sine times the square root of two. The angle, `c`, `alpha`, `a`, its root, the square
/// root of two and the section are returned.
pub proof fn law_shelf_acts_on_its_side<M: Elementary>(
    m: &M,
    sine: spec_fn(real) -> real,
    cosine: spec_fn(real) -> real,
    p: spec_fn(real) -> real,
    kind: BandKind,
    freq_hz: Single,
    gain_db: Single,
    q: Single,
    sample_rate: Single,
    t: Taps,
    pi: real,
    w: real,
    d: real,
) -> (r: (real, real, real, real, real, real, (real, real, real), (real, real, real)))
    requires
        !(kind is Peak),
        is_pi(pi),
        is_power_of_ten(p),
        0 as real <= d,
        16 as real * d <= 1 as real,
        turns_follow(m, sine, cosine, d),
        powers_follow(m, p, d),
        roots_follow(m, d),
        usable_frequency(freq_hz, sample_rate),
        usable_level(gain_db),
        1 as real <= w <= 1024 as real,
        2 as real * p(exact(gain_db) / 40 as real) <= w,
        2 as real * p(-(exact(gain_db) / 40 as real)) <= w,
        is_band(m, kind, freq_hz, gain_db, q, sample_rate, t),
    ensures
        is_angle(r.0, freq_hz, sample_rate, pi),
        norm(r.1 - cosine(r.0)) <= d,
        r.2 >= 0 as real,
        norm(2 as real * r.2 - sine(r.0) * r.5) <= (2 as real * d + 4 as real / 0x100_0000 as real)
            * (sine(r.0) * r.5) + 8 as real * tiny(),
        r.3 > 0 as real,
        norm(r.3 - p(exact(gain_db) / 40 as real)) <= (2 as real * d + 100 as real
            / 0x100_0000 as real) * p(exact(gain_db) / 40 as real),
        r.4 > 0 as real,
        norm(r.4 * r.4 - r.3) <= d * r.3,
        r.5 > 0 as real,
        0x100_0000 as real * norm(r.5 * r.5 - 2 as real) <= 2 as real,
        is_section(
            t,
            r.6,
            r.7,
            12 as real * ((48 as real * (w / 0x100_0000 as real)) * (r.6.0 / r.7.0)),
            12 as real * (48 as real * (w / 0x100_0000 as real)),
        ),
        forall|x: real|
            ({
                let s = r.2 * (2 as real * r.4);
                let z = tilted(r.3, r.1, x, kind is LowShelf);
                #[trigger] power_at(r.6, x) == (r.3 * r.3) * (4 as real * (z * z + (s * s) * (
                1 as real - x * x)))
            }),
        forall|x: real|
            ({
                let s = r.2 * (2 as real * r.4);
                let z = tilted(r.3, r.1, x, kind is HighShelf);
                #[trigger] power_at(r.7, x) == 4 as real * (z * z + (s * s) * (1 as real - x * x))
            }),
{
    let theta: real = exact(angle(freq_hz, sample_rate));
    let k: real = 0x100_0000 as real;
    let dd: real = 1 as real / k;
    let high: bool = kind is HighShelf;
    lemma_wide();
    lemma_angle(freq_hz, sample_rate, pi);
    let (s, c, a) = choose|s: Single, c: Single, a: Single|
        {
            &&& #[trigger] call_ensures(M::sin, (m, angle(freq_hz, sample_rate)), s)
            &&& #[trigger] call_ensures(M::cos, (m, angle(freq_hz, sample_rate)), c)
            &&& #[trigger] call_ensures(
                M::power_of_ten,
                (m, gain_db.over(Single::from_bits(FORTY))),
                a,
            )
            &&& exists|root: Single|
                #[trigger] call_ensures(M::sqrt, (m, a), root) && t == shelf_taps(
                    kind is HighShelf,
                    s,
                    c,
                    a,
                    root,
                )
        };
    let root = choose|root: Single|
        #[trigger] call_ensures(M::sqrt, (m, a), root) && t == shelf_taps(
            kind is HighShelf,
            s,
            c,
            a,
            root,
        );
    let sr: real = sine(theta);
    assert(sr * sr + cosine(theta) * cosine(theta) == 1 as real);
    lemma_on_the_circle(sr, cosine(theta));
    assert(sr >= 0 as real);
    lemma_factor_grows(d, 1 as real / 16 as real, sr);
    assert((1 as real / 16 as real) * sr == sr / 16 as real) by (nonlinear_arith);
    let es: real = exact(s);
    lemma_half_width(s);
    let alpha = s.over(Single::from_bits(TWO)).times(Single::from_bits(SQRT_TWO));
    let al: real = exact(alpha);
    let g: real = exact(Single::from_bits(SQRT_TWO));
    lemma_root_of_two();
    // the bandwidth
    let off: real = es - sr;
    let x0: real = sr * g;
    lemma_spread(es, sr, g);
    lemma_norm_product(off, g);
    lemma_factor_grows(norm(off), d * sr, g);
    lemma_group(d, sr, g);
    lemma_nonneg_product(sr, g);
    lemma_factor_grows(d, 1 as real / 16 as real, x0);
    assert((1 as real / 16 as real) * x0 == x0 / 16 as real) by (nonlinear_arith);
    lemma_spread(2 as real * d, 4 as real / k, x0);
    assert((2 as real * d) * x0 == 2 as real * (d * x0)) by (nonlinear_arith);
    assert((4 as real / k) * x0 == 4 as real * x0 / k) by (nonlinear_arith)
        requires
            k == 0x100_0000 as real,
    ;
    // the gain
    lemma_fortieth(m, p, gain_db, a, d);
    let ea: real = exact(a);
    let level: real = exact(gain_db) / 40 as real;
    lemma_gain_range(p, level, ea, w, d);
    let er: real = exact(root);
    assert(is_root(root, a, d));
    lemma_root_range(ea, er, w, d);
    lemma_twice_cosine(c);
    law_flanks_stand_by_the_gain(ea, exact(c), w);
    assert(dd * w == w / k) by (nonlinear_arith)
        requires
            dd == 1 as real / k,
            k == 0x100_0000 as real,
    ;
    lemma_factor_grows(0 as real, dd, ea);
    lemma_factor_grows(0 as real, dd, er);
    assert(0 as real * ea == 0 as real && 0 as real * er == 0 as real) by (nonlinear_arith);
    lemma_shelf_near(high, alpha, c, a, root, ea, er, w, dd);
    let slope: real = al * (2 as real * er);
    let n = ideal_forward(high, ea, exact(c), slope);
    let mm = ideal_back(high, ea, exact(c), slope);
    lemma_section_of(
        raw_forward(high, alpha, c, a, root),
        raw_back(high, alpha, c, a, root),
        n,
        mm,
        48 as real * (w / k),
    );
    assert forall|x: real|
        ({
            let z = tilted(ea, exact(c), x, kind is LowShelf);
            #[trigger] power_at(n, x) == (ea * ea) * (4 as real * (z * z + (slope * slope) * (
            1 as real - x * x)))
        }) by {
        lemma_shelf_power(high, ea, exact(c), slope, x);
    }
    assert forall|x: real|
        ({
            let z = tilted(ea, exact(c), x, kind is HighShelf);
            #[trigger] power_at(mm, x) == 4 as real * (z * z + (slope * slope) * (1 as real - x
                * x))
        }) by {
        lemma_shelf_power(high, ea, exact(c), slope, x);
    }
    (theta, exact(c), al, ea, er, g, n, mm)
}

/// The root of the gain that the host gives lies within the limit and its inverse.
proof fn lemma_gain_range(p: spec_fn(real) -> real, level: real, a: real, w: real, d: real)
    requires
        is_power_of_ten(p),
        0 as real <= d,
        16 as real * d <= 1 as real,
        w >= 1 as real,
        2 as real * p(level) <= w,
        2 as real * p(-level) <= w,
        norm(a - p(level)) <= (2 as real * d + 100 as real / 0x100_0000 as real) * p(level),
    ensures
        a > 0 as real,
        a <= w,
        w * a >= 1 as real,
{
    let g: real = p(level);
    let h: real = p(-level);
    let share: real = 2 as real * d + 100 as real / 0x100_0000 as real;
    lemma_factor_grows(share, 1 as real / 4 as real, g);
    assert((1 as real / 4 as real) * g == g / 4 as real) by (nonlinear_arith);
    assert(p(level + (-level)) == g * h);
    assert(p(0 as real + 1 as real) == p(0 as real) * p(1 as real));
    assert(g * h == 1 as real);
    lemma_factor_grows(2 as real * h, w, a);
    lemma_factor_grows(3 as real * g / 4 as real, a, h);
    assert((2 as real * h) * a == 2 as real * (h * a)) by (nonlinear_arith);
    assert(h * (3 as real * g / 4 as real) == 3 as real * (g * h) / 4 as real) by (nonlinear_arith);
}

} // verus!
