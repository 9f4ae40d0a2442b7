//! What levels, times and frequencies come to as exact numbers.
use vstd::arithmetic::power2::{lemma2_to64, lemma2_to64_rest, pow2};
use vstd::prelude::*;

use super::biquad::angle;
use super::gate::Gate;
use super::laws_eq::{lemma_exact_two, lemma_wide};
use super::laws_ramp::power;
use super::level::{coeff_exponent, is_coeff, is_level, is_linear, Elementary};
use crate::accuracy::{
    exact, large, lemma_eps, lemma_exact, lemma_factor_grows, lemma_group, lemma_negated_exact,
    lemma_norm_product, lemma_over_error, lemma_quotient, lemma_real_product, lemma_share,
    lemma_spread, lemma_times_error, norm, tiny,
};
use crate::arith::lemma_pow2_sum;
use crate::nearest::lemma_magnitude_of_parts;
use crate::numbers::{FORTY, HUNDRED_TWENTY, PI, THOUSANDTH, TWENTY, TWO};
use crate::single::Single;

verus! {

/// A constant with the fraction `m`, hidden bit included, is worth `m` over a power of two.
pub proof fn lemma_constant(bits: u32, e: nat, m: nat, k: nat)
    requires
        bits < 0x7f80_0000,
        bits == e * 0x80_0000 + m,
        0x80_0000 <= m <= 0x100_0000,
        e + k == 149,
    ensures
        Single::from_bits(bits).finite(),
        exact(Single::from_bits(bits)) * (pow2(k) as real) == m as real,
{
    let x = Single::from_bits(bits);
    lemma2_to64();
    lemma2_to64_rest();
    lemma_magnitude_of_parts(23, e, m);
    lemma_pow2_sum(k, e);
    lemma_exact(x);
    assert(x.value() == m * pow2(e));
    lemma_real_product(m as int, pow2(e) as int);
    lemma_real_product(pow2(k) as int, pow2(e) as int);
    let v: real = exact(x);
    let a: real = pow2(k) as real;
    let b: real = pow2(e) as real;
    let mr: real = m as real;
    lemma_group(v, a, b);
    assert(v * a == mr) by (nonlinear_arith)
        requires
            (v * a) * b == mr * b,
            b > 0 as real,
    ;
}

/// A product is rounded by at most one part in `2^24`, and half the smallest positive number.
pub proof fn lemma_rounded_product(a: Single, b: Single)
    requires
        a.finite(),
        b.finite(),
        norm(exact(a) * exact(b)) <= large(),
    ensures
        a.times(b).finite(),
        0x100_0000 as real * norm(exact(a.times(b)) - exact(a) * exact(b)) <= norm(
            exact(a) * exact(b),
        ) + 0x100_0000 as real * tiny(),
{
    lemma_times_error(a, b);
    lemma_eps(norm(exact(a) * exact(b)));
    lemma_wide();
}

/// A quotient is rounded by at most one part in `2^24`, and half the smallest positive number.
pub proof fn lemma_rounded_quotient(a: Single, b: Single)
    requires
        a.finite(),
        b.finite(),
        exact(b) != 0 as real,
        norm(exact(a) / exact(b)) <= large(),
    ensures
        a.over(b).finite(),
        0x100_0000 as real * norm(exact(a.over(b)) - exact(a) / exact(b)) <= norm(
            exact(a) / exact(b),
        ) + 0x100_0000 as real * tiny(),
{
    lemma_over_error(a, b);
    lemma_eps(norm(exact(a) / exact(b)));
    lemma_wide();
}

/// The constant for one thousandth is a thousandth, to one part in `2^24`.
proof fn lemma_thousandth()
    ensures
        Single::from_bits(THOUSANDTH).finite(),
        exact(Single::from_bits(THOUSANDTH)) > 0 as real,
        1 as real <= 1000 as real * exact(Single::from_bits(THOUSANDTH)),
        0x100_0000 as real * (1000 as real * exact(Single::from_bits(THOUSANDTH)) - 1 as real)
            <= 1 as real,
{
    lemma2_to64();
    lemma2_to64_rest();
    lemma_constant(THOUSANDTH, 116, 0x83_126f, 33);
    assert(pow2(33) == 0x2_0000_0000);
    let v: real = exact(Single::from_bits(THOUSANDTH));
    assert(v * 0x2_0000_0000 as real == 0x83_126f as real);
}

/// The whole part of a number that is not negative, but for rounding.
proof fn lemma_whole_part(x: Single)
    requires
        x.finite(),
        -(1 as real) < exact(x) < 0x1_0000_0000 as real,
    ensures
        norm(x.to_usize() as real - exact(x)) < 1 as real,
{
    lemma_exact(x);
    lemma2_to64();
    lemma2_to64_rest();
    let u: nat = pow2(149);
    let ur: real = u as real;
    let v: int = x.value();
    let e: real = exact(x);
    if x.word().neg {
        assert(e <= 0 as real) by (nonlinear_arith)
            requires
                e * ur <= 0 as real,
                ur > 0 as real,
        ;
    } else {
        let n: int = v / (u as int);
        vstd::arithmetic::div_mod::lemma_fundamental_div_mod(v, u as int);
        let w: int = u as int;
        assert(n * w <= v && v < (n + 1) * w) by (nonlinear_arith)
            requires
                v == w * n + v % w,
                0 <= v % w < w,
        ;
        lemma_real_product(n, w);
        lemma_real_product(n + 1, w);
        let nr: real = n as real;
        assert(nr * ur <= e * ur && e * ur < (nr + 1 as real) * ur);
        assert(nr <= e && e < nr + 1 as real) by (nonlinear_arith)
            requires
                nr * ur <= e * ur,
                e * ur < (nr + 1 as real) * ur,
                ur > 0 as real,
        ;
        assert(n < 0x1_0000_0000);
    }
}

/// A time in samples is the time in milliseconds times the rate, over a thousand, to four parts in
/// `2^24`.
proof fn lemma_samples(time_ms: Single, sample_rate: Single)
    requires
        time_ms.finite(),
        sample_rate.finite(),
        0 as real <= exact(time_ms) <= 0x1_0000_0000 as real,
        0 as real <= exact(sample_rate) <= 0x1_0000_0000 as real,
    ensures
        ({
            let x = time_ms.times(Single::from_bits(THOUSANDTH)).times(sample_rate);
            let tr = exact(time_ms) * exact(sample_rate);
            &&& x.finite()
            &&& tr >= 0 as real
            &&& tr <= 0x1_0000_0000_0000_0000 as real
            &&& 0x100_0000 as real * norm(1000 as real * exact(x) - tr) <= 4 as real * tr
                + 1 as real
        }),
{
    let z = Single::from_bits(THOUSANDTH);
    let p = time_ms.times(z);
    let x = p.times(sample_rate);
    let h: real = exact(time_ms);
    let r: real = exact(sample_rate);
    let ez: real = exact(z);
    let hr: real = h * r;
    let hz: real = h * ez;
    let hzr: real = hz * r;
    let k: real = 0x100_0000 as real;
    let t: real = tiny();
    lemma_wide();
    lemma_thousandth();
    lemma_nonneg_product(h, ez);
    lemma_nonneg_product(h, r);
    lemma_nonneg_product(hz, r);
    lemma_factor_grows(h, 0x1_0000_0000 as real, r);
    // a thousandth
    assert(1000 as real * hzr == (1000 as real * ez) * hr) by (nonlinear_arith)
        requires
            hzr == hz * r,
            hz == h * ez,
            hr == h * r,
    ;
    let y: real = 1000 as real * ez - 1 as real;
    lemma_spread(1000 as real * ez, 1 as real, hr);
    lemma_factor_grows(k * y, 1 as real, hr);
    lemma_group(k, y, hr);
    lemma_factor_grows(0 as real, y, hr);
    assert(1 as real * hr == hr && 0 as real * hr == 0 as real) by (nonlinear_arith);
    assert(k * norm(1000 as real * hzr - hr) <= hr);
    // the first product
    lemma_factor_grows(ez, 1 as real, h);
    assert(h * 1 as real == h) by (nonlinear_arith);
    lemma_rounded_product(time_ms, z);
    let e1: real = exact(p) - hz;
    // the second one
    let pr: real = exact(p) * r;
    lemma_spread(exact(p), hz, r);
    lemma_norm_product(e1, r);
    lemma_factor_grows(k * norm(e1), hz + k * t, r);
    lemma_spread(hz, k * t, r);
    lemma_group(k, norm(e1), r);
    assert(k * norm(pr - hzr) <= hzr + (k * t) * r);
    lemma_factor_grows(r, 0x1_0000_0000 as real, k * t);
    lemma_rounded_product(p, sample_rate);
}

/// The hold time of a noise gate in samples is the time that is set, times the sample rate: a
/// thousand times the count is the time in milliseconds times the rate, up to one sample and
/// rounding, four parts in `2^24`.
pub proof fn law_hold_time_is_as_set<M: Elementary>(m: &M, g: Gate, sample_rate: Single)
    requires
        g.tuned(m, sample_rate),
        g.hold_ms.finite(),
        sample_rate.finite(),
        0 as real <= exact(g.hold_ms) <= 0x1_0000_0000 as real,
        0 as real <= exact(sample_rate) <= 0x1_0000_0000 as real,
        exact(g.hold_ms) * exact(sample_rate) <= 0x100_0000_0000 as real,
    ensures
        0x100_0000 as real * norm(
            1000 as real * g.hold_samples as real - exact(g.hold_ms) * exact(sample_rate),
        ) <= 0x100_0000 as real * 1001 as real + 4 as real * (exact(g.hold_ms) * exact(
            sample_rate,
        )),
{
    lemma_samples(g.hold_ms, sample_rate);
    lemma_whole_part(g.hold_ms.times(Single::from_bits(THOUSANDTH)).times(sample_rate));
}

/// The angle that a frequency advances by in one sample is `2 * pi` times the frequency over the
/// sample rate, to five parts in `2^24`.
pub proof fn law_angle_is_as_set(freq_hz: Single, sample_rate: Single, pi: real)
    requires
        freq_hz.finite(),
        sample_rate.finite(),
        0 as real <= exact(freq_hz) <= 0x1_0000_0000 as real,
        1 as real <= exact(sample_rate) <= 0x1_0000_0000 as real,
        is_pi(pi),
    ensures
        angle(freq_hz, sample_rate).finite(),
        0x100_0000 as real * norm(
            exact(angle(freq_hz, sample_rate)) * exact(sample_rate) - (2 as real * pi) * exact(
                freq_hz,
            ),
        ) <= 5 as real * ((2 as real * pi) * exact(freq_hz)) + 1 as real,
{
    let two = Single::from_bits(TWO);
    let c = Single::from_bits(PI);
    let turn = two.times(c);
    let x = turn.times(freq_hz);
    let w = x.over(sample_rate);
    let f: real = exact(freq_hz);
    let r: real = exact(sample_rate);
    let k: real = 0x100_0000 as real;
    let t: real = tiny();
    let full: real = 2 as real * pi;
    let ff: real = full * f;
    lemma_wide();
    lemma_exact_two();
    lemma2_to64();
    lemma_constant(PI, 127, 0xc9_0fdb, 22);
    assert(pow2(22) == 0x40_0000);
    let ec: real = exact(c);
    assert(ec * 0x40_0000 as real == 0xc9_0fdb as real);
    lemma_rounded_product(two, c);
    let et: real = exact(turn);
    assert(k * norm(et - full) <= 2 as real * full);
    // the product with the frequency
    let tf: real = et * f;
    let off: real = et - full;
    lemma_spread(et, full, f);
    lemma_norm_product(off, f);
    lemma_factor_grows(k * norm(off), 2 as real * full, f);
    lemma_group(k, norm(off), f);
    lemma_group(2 as real, full, f);
    lemma_nonneg_product(full, f);
    lemma_factor_grows(f, 0x1_0000_0000 as real, full);
    lemma_rounded_product(turn, freq_hz);
    let ex: real = exact(x);
    assert(k * norm(tf - ff) <= 2 as real * ff);
    // the quotient
    lemma_quotient(ex, r);
    let q: real = ex / r;
    lemma_norm_product(q, r);
    lemma_factor_grows(1 as real, r, norm(q));
    assert(norm(q) * 1 as real == norm(q)) by (nonlinear_arith);
    lemma_rounded_quotient(x, sample_rate);
    let ew: real = exact(w);
    let miss: real = ew - q;
    lemma_spread(ew, q, r);
    lemma_norm_product(miss, r);
    lemma_factor_grows(k * norm(miss), norm(q) + k * t, r);
    lemma_spread(norm(q), k * t, r);
    lemma_group(k, norm(miss), r);
    lemma_factor_grows(r, 0x1_0000_0000 as real, k * t);
}

/// The exponent of a smoothing coefficient is minus one over the time in samples, to eight parts in
/// `2^24`.
pub proof fn law_exponent_is_as_set(time_ms: Single, sample_rate: Single)
    requires
        time_ms.finite(),
        sample_rate.finite(),
        0 as real <= exact(time_ms) <= 0x1_0000_0000 as real,
        0 as real <= exact(sample_rate) <= 0x1_0000_0000 as real,
        exact(time_ms) * exact(sample_rate) >= 1 as real,
    ensures
        coeff_exponent(time_ms, sample_rate).finite(),
        0x100_0000 as real * norm(
            exact(coeff_exponent(time_ms, sample_rate)) * (exact(time_ms) * exact(sample_rate))
                + 1000 as real,
        ) <= 8000 as real,
{
    let one = Single::one();
    let x = time_ms.times(Single::from_bits(THOUSANDTH)).times(sample_rate);
    let e = one.negated().over(x);
    let tr: real = exact(time_ms) * exact(sample_rate);
    let y: real = exact(x);
    let k: real = 0x100_0000 as real;
    let t: real = tiny();
    lemma_wide();
    lemma_samples(time_ms, sample_rate);
    lemma_share(one);
    lemma_negated_exact(one);
    assert(1001 as real * y >= tr);
    assert(y > 0 as real);
    let q: real = -(1 as real) / y;
    lemma_quotient(-(1 as real), y);
    lemma_norm_product(q, y);
    assert(norm(q) * y == 1 as real);
    assert(norm(q) <= 1001 as real) by (nonlinear_arith)
        requires
            norm(q) * y == 1 as real,
            1001 as real * y >= 1 as real,
            norm(q) >= 0 as real,
    ;
    lemma_rounded_quotient(one.negated(), x);
    let ee: real = exact(e);
    let miss: real = ee - q;
    // the product with the time
    lemma_spread(ee, q, y);
    lemma_norm_product(miss, y);
    lemma_factor_grows(k * norm(miss), norm(q) + k * t, y);
    lemma_spread(norm(q), k * t, y);
    lemma_group(k, norm(miss), y);
    lemma_factor_grows(y, 0x1_0000_0000_0000_0000 as real, k * t);
    assert(k * norm(ee * y + 1 as real) <= 2 as real);
    let off: real = tr - 1000 as real * y;
    lemma_spread(tr, 1000 as real * y, ee);
    lemma_norm_product(ee, off);
    assert(k * norm(off) <= 5 as real * tr);
    lemma_factor_grows(k * norm(off), 5 as real * tr, norm(ee));
    lemma_factor_grows(tr, 1001 as real * y, norm(ee));
    lemma_norm_product(ee, y);
    assert(norm(ee) * (5 as real * tr) == 5 as real * (norm(ee) * tr)) by (nonlinear_arith);
    assert(norm(ee) * (1001 as real * y) == 1001 as real * (norm(ee) * y)) by (nonlinear_arith);
    assert(norm(ee) * (k * norm(off)) == k * (norm(ee) * norm(off))) by (nonlinear_arith);
    assert(ee * (1000 as real * y) == 1000 as real * (ee * y)) by (nonlinear_arith);
    assert(k * norm(ee * off) <= 5006 as real);
}

/// The ratio of a circle's circumference to its diameter, to ten places.
pub open spec fn is_pi(pi: real) -> bool {
    31_415_926_535 as real <= 10_000_000_000 as real * pi <= 31_415_926_536 as real
}

/// Ten to the power of a number: sums become products, one becomes ten, and what is near to nothing
/// becomes near to one.
pub open spec fn is_power_of_ten(p: spec_fn(real) -> real) -> bool {
    &&& p(1 as real) == 10 as real
    &&& forall|x: real, y: real| #[trigger] p(x + y) == p(x) * p(y)
    &&& forall|x: real| #[trigger] p(x) > 0 as real
    &&& forall|x: real, y: real| x <= y ==> #[trigger] p(x) <= #[trigger] p(y)
    &&& forall|x: real|
        8 as real * norm(x) <= 1 as real ==> norm(#[trigger] p(x) - 1 as real) <= 3 as real * norm(x)
}

/// The exponential function: sums become products, and what is near to nothing becomes itself and
/// one.
pub open spec fn is_exponential(e: spec_fn(real) -> real) -> bool {
    &&& forall|x: real, y: real| #[trigger] e(x + y) == e(x) * e(y)
    &&& forall|x: real| #[trigger] e(x) > 0 as real
    &&& forall|x: real|
        norm(x) <= 1 as real ==> norm(#[trigger] e(x) - 1 as real - x) <= x * x
}

/// The host's powers of ten are accurate to the share `d`.
pub open spec fn powers_follow<M: Elementary>(m: &M, p: spec_fn(real) -> real, d: real) -> bool {
    forall|x: Single, r: Single| #[trigger]
        call_ensures(M::power_of_ten, (m, x), r) && x.finite() && norm(exact(x)) <= 32 as real
            ==> r.finite() && norm(exact(r) - p(exact(x))) <= d * p(exact(x))
}

/// The host's decimal logarithms are accurate to the share `d` of the number.
pub open spec fn logarithms_follow<M: Elementary>(
    m: &M,
    p: spec_fn(real) -> real,
    d: real,
) -> bool {
    forall|x: Single, r: Single| #[trigger]
        call_ensures(M::log10, (m, x), r) && x.finite() && exact(x) > 0 as real ==> {
            &&& r.finite()
            &&& norm(exact(r)) <= 64 as real
            &&& norm(p(exact(r)) - exact(x)) <= d * exact(x)
        }
}

/// The host's exponentials are accurate to the share `d`.
pub open spec fn exponentials_follow<M: Elementary>(
    m: &M,
    e: spec_fn(real) -> real,
    d: real,
) -> bool {
    forall|x: Single, r: Single| #[trigger]
        call_ensures(M::exp, (m, x), r) && x.finite() && norm(exact(x)) <= 64 as real
            ==> r.finite() && norm(exact(r) - e(exact(x))) <= d * e(exact(x))
}

/// From an answer that is accurate for a number near to the right one to one that is accurate for
/// the right one.
pub proof fn lemma_through_answer(r: real, near: real, right: real, f: real, d: real, g: real)
    requires
        right > 0 as real,
        near == right * f,
        norm(f - 1 as real) <= g,
        0 as real <= d <= 1 as real,
        0 as real <= g <= 1 as real,
        norm(r - near) <= d * near,
    ensures
        norm(r - right) <= (2 as real * d + g) * right,
{
    let y: real = f - 1 as real;
    lemma_spread(f, 1 as real, right);
    assert(right * 1 as real == right) by (nonlinear_arith);
    assert(right * y == near - right);
    lemma_norm_product(right, y);
    lemma_factor_grows(norm(y), g, right);
    lemma_factor_grows(f, 2 as real, right);
    assert(near <= 2 as real * right) by {
        assert(right * 2 as real == 2 as real * right) by (nonlinear_arith);
    }
    lemma_factor_grows(near, 2 as real * right, d);
    assert(d * (2 as real * right) == 2 as real * d * right) by (nonlinear_arith);
    lemma_spread(2 as real * d, g, right);
    assert(right * g == g * right) by (nonlinear_arith);
}

/// Twenty and forty.
pub proof fn lemma_twenty()
    ensures
        Single::from_bits(TWENTY).finite(),
        exact(Single::from_bits(TWENTY)) == 20 as real,
        Single::from_bits(FORTY).finite(),
        exact(Single::from_bits(FORTY)) == 40 as real,
{
    lemma2_to64();
    lemma_constant(TWENTY, 130, 0xa0_0000, 19);
    lemma_constant(FORTY, 131, 0xa0_0000, 18);
    assert(pow2(19) == 0x8_0000 && pow2(18) == 0x4_0000);
    assert(exact(Single::from_bits(TWENTY)) * 0x8_0000 as real == 0xa0_0000 as real);
    assert(exact(Single::from_bits(FORTY)) * 0x4_0000 as real == 0xa0_0000 as real);
}

/// A level in decibels becomes the amplitude ten to the power of a twentieth of it: twenty decibels
/// more are ten times the amplitude.
pub proof fn law_decibels_count_twentieths<M: Elementary>(
    m: &M,
    p: spec_fn(real) -> real,
    db: Single,
    r: Single,
    d: real,
)
    requires
        is_power_of_ten(p),
        0 as real <= d <= 1 as real,
        powers_follow(m, p, d),
        is_linear(m, db, r),
        usable_level(db),
    ensures
        right_amplitude(p, db, r, d),
        p(exact(db) / 20 as real + 1 as real) == 10 as real * p(exact(db) / 20 as real),
{
    let c = Single::from_bits(TWENTY);
    let x = db.over(c);
    let q: real = exact(db) / 20 as real;
    let k: real = 0x100_0000 as real;
    lemma_wide();
    lemma2_to64();
    lemma_twenty();
    lemma_rounded_quotient(db, c);
    let y: real = exact(x) - q;
    assert(k * norm(y) <= 31 as real);
    assert(exact(x) == q + y);
    assert(p(q + y) == p(q) * p(y));
    lemma_through_answer(exact(r), p(exact(x)), p(q), p(y), d, 100 as real / k);
    assert(p(q + 1 as real) == p(q) * p(1 as real));
}

/// An amplitude becomes twenty times its decimal logarithm, so that its level taken back is the
/// amplitude; what is not positive becomes -120 dB.
pub proof fn law_levels_count_twentieths<M: Elementary>(
    m: &M,
    p: spec_fn(real) -> real,
    linear: Single,
    r: Single,
    d: real,
)
    requires
        is_power_of_ten(p),
        0 as real <= d <= 1 as real,
        logarithms_follow(m, p, d),
        is_level(m, linear, r),
        linear.finite(),
    ensures
        r.finite(),
        exact(linear) <= 0 as real ==> exact(r) == -(120 as real),
        exact(linear) > 0 as real ==> norm(p(exact(r) / 20 as real) - exact(linear)) <= (d
            + 400 as real / 0x100_0000 as real) * exact(linear),
        norm(exact(r)) <= 1300 as real,
{
    let zero = Single::zero();
    let c = Single::from_bits(TWENTY);
    let k: real = 0x100_0000 as real;
    lemma_wide();
    lemma2_to64();
    lemma_exact_zero();
    lemma_exact_at_most(linear, zero);
    lemma_twenty();
    if linear.le(zero) {
        let positive = Single::from_bits(HUNDRED_TWENTY);
        lemma_constant(HUNDRED_TWENTY, 132, 0xf0_0000, 17);
        assert(pow2(17) == 0x2_0000);
        assert(exact(positive) * 0x2_0000 as real == 0xf0_0000 as real);
        lemma_negated_exact(positive);
        assert(r == positive.negated());
    } else {
        let l = choose|l: Single|
            #[trigger] call_ensures(M::log10, (m, linear), l) && r == c.times(l);
        let a: real = exact(linear);
        let el: real = exact(l);
        lemma_rounded_product(c, l);
        let y: real = exact(r) / 20 as real - el;
        assert(k * norm(y) <= 65 as real);
        assert(p(el + y) == p(el) * p(y));
        assert(el + y == exact(r) / 20 as real);
        let f: real = p(y) - 1 as real;
        lemma_spread(p(y), 1 as real, p(el));
        assert(p(el) * 1 as real == p(el)) by (nonlinear_arith);
        lemma_norm_product(p(el), f);
        lemma_factor_grows(norm(f), 200 as real / k, p(el));
        lemma_factor_grows(d, 1 as real, a);
        assert(1 as real * a == a) by (nonlinear_arith);
        lemma_factor_grows(p(el), 2 as real * a, 200 as real / k);
        lemma_spread(d, 400 as real / k, a);
    }
}

pub proof fn lemma_exact_zero()
    ensures
        exact(Single::zero()) == 0 as real,
        Single::zero().finite(),
{
    let z = Single::zero();
    lemma_exact(z);
    crate::rounding::lemma_magnitude_zero(23, 0);
    assert(z.value() == 0);
    let e: real = exact(z);
    let u: real = pow2(149) as real;
    assert(e == 0 as real) by (nonlinear_arith)
        requires
            e * u == 0 as real,
            u > 0 as real,
    ;
}

/// Numbers compare as their values do.
pub proof fn lemma_exact_at_most(a: Single, b: Single)
    requires
        a.finite(),
        b.finite(),
    ensures
        a.le(b) <==> exact(a) <= exact(b),
        a.lt(b) <==> exact(a) < exact(b),
        a.ge(b) <==> exact(a) >= exact(b),
        a.gt(b) <==> exact(a) > exact(b),
{
    reveal(crate::float::at_most);
    reveal(crate::float::less);
    lemma_exact(a);
    lemma_exact(b);
    let x: real = exact(a);
    let y: real = exact(b);
    let u: real = pow2(149) as real;
    if x <= y {
        lemma_factor_grows(x, y, u);
    } else {
        lemma_factor_grows(y, x, u);
        assert(x * u != y * u) by (nonlinear_arith)
            requires
                x > y,
                u > 0 as real,
        ;
    }
    if a.value() == b.value() {
        assert(x == y) by (nonlinear_arith)
            requires
                x * u == y * u,
                u > 0 as real,
        ;
    }
}

/// A time that is neither too long nor too short for a sample rate: at least 16 thousandths of a
/// sample.
pub open spec fn usable_time(time_ms: Single, sample_rate: Single) -> bool {
    &&& time_ms.finite()
    &&& sample_rate.finite()
    &&& exact(time_ms) > 0 as real
    &&& exact(time_ms) <= 0x1_0000_0000 as real
    &&& 0 as real <= exact(sample_rate) <= 0x1_0000_0000 as real
    &&& exact(time_ms) * exact(sample_rate) >= 16 as real
}

/// `r` is the exponential of minus one over a time in samples, a thousandth of the milliseconds
/// times the rate, where the host's exponential is accurate to the share `d`.
pub open spec fn right_coefficient(
    e: spec_fn(real) -> real,
    time_ms: Single,
    sample_rate: Single,
    r: Single,
    d: real,
) -> bool {
    let right = e(-(1000 as real) / (exact(time_ms) * exact(sample_rate)));
    &&& r.finite()
    &&& norm(exact(r) - right) <= (2 as real * d + 1001 as real / 0x100_0000 as real) * right
}

/// `r` is ten to the power of a twentieth of a level, where the host's powers are accurate to the
/// share `d`.
pub open spec fn right_amplitude(p: spec_fn(real) -> real, db: Single, r: Single, d: real) -> bool {
    let right = p(exact(db) / 20 as real);
    &&& r.finite()
    &&& norm(exact(r) - right) <= (2 as real * d + 100 as real / 0x100_0000 as real) * right
}

/// A level of at most 600 dB either way.
pub open spec fn usable_level(db: Single) -> bool {
    db.finite() && norm(exact(db)) <= 600 as real
}

/// A smoothing coefficient is the exponential of minus one over its time in samples.
pub proof fn law_coefficient_is_exponential<M: Elementary>(
    m: &M,
    e: spec_fn(real) -> real,
    time_ms: Single,
    sample_rate: Single,
    r: Single,
    d: real,
)
    requires
        is_exponential(e),
        0 as real <= d <= 1 as real,
        exponentials_follow(m, e, d),
        is_coeff(m, time_ms, sample_rate, r),
        usable_time(time_ms, sample_rate),
    ensures
        right_coefficient(e, time_ms, sample_rate, r, d),
{
    let x = coeff_exponent(time_ms, sample_rate);
    let tr: real = exact(time_ms) * exact(sample_rate);
    let k: real = 0x100_0000 as real;
    lemma_exact_zero();
    lemma_exact_at_most(time_ms, Single::zero());
    law_exponent_is_as_set(time_ms, sample_rate);
    let q: real = -(1000 as real) / tr;
    lemma_quotient(-(1000 as real), tr);
    let ex: real = exact(x);
    let y: real = ex - q;
    lemma_spread(ex, q, tr);
    lemma_norm_product(y, tr);
    lemma_norm_product(q, tr);
    lemma_factor_grows(16 as real, tr, norm(y));
    lemma_factor_grows(16 as real, tr, norm(q));
    assert(norm(y) * 16 as real == 16 as real * norm(y)) by (nonlinear_arith);
    assert(norm(q) * 16 as real == 16 as real * norm(q)) by (nonlinear_arith);
    assert(k * norm(y) <= 500 as real);
    assert(norm(q) <= 63 as real);
    assert(e(q + y) == e(q) * e(y));
    assert(q + y == ex);
    lemma_norm_product(y, y);
    lemma_factor_grows(norm(y), 1 as real / 0x1000 as real, norm(y));
    assert(norm(y) * (1 as real / 0x1000 as real) == norm(y) / 0x1000 as real) by (nonlinear_arith);
    assert(norm(e(y) - 1 as real) <= 1001 as real / k);
    lemma_through_answer(exact(r), e(ex), e(q), e(y), d, 1001 as real / k);
}

/// Without a time there is no smoothing.
pub proof fn law_no_time_is_no_smoothing<M: Elementary>(
    m: &M,
    time_ms: Single,
    sample_rate: Single,
    r: Single,
)
    requires
        is_coeff(m, time_ms, sample_rate, r),
        time_ms.finite(),
        exact(time_ms) <= 0 as real,
    ensures
        exact(r) == 0 as real,
{
    lemma_exact_zero();
    lemma_exact_at_most(time_ms, Single::zero());
}

/// After the time that was set, of `n` samples, what a smoothed value has left of its way is one
/// over the base of the exponential: the coefficient to the power `n`.
pub proof fn law_time_leaves_one_share(e: spec_fn(real) -> real, n: nat)
    requires
        is_exponential(e),
        n > 0,
    ensures
        power(e(-(1 as real) / (n as real)), n) == e(-(1 as real)),
{
    let x: real = -(1 as real) / (n as real);
    lemma_quotient(-(1 as real), n as real);
    lemma_power_of_exponential(e, x, n);
    assert((n as real) * x == x * (n as real)) by (nonlinear_arith);
}

proof fn lemma_power_of_exponential(e: spec_fn(real) -> real, x: real, n: nat)
    requires
        is_exponential(e),
    ensures
        power(e(x), n) == e((n as real) * x),
    decreases n,
{
    if n == 0 {
        assert(0 as real * x == 0 as real) by (nonlinear_arith);
        let o: real = e(0 as real);
        assert(norm(o - 1 as real - 0 as real) <= 0 as real * 0 as real);
        assert(0 as real * 0 as real == 0 as real) by (nonlinear_arith);
    } else {
        let b: nat = (n - 1) as nat;
        lemma_power_of_exponential(e, x, b);
        let br: real = b as real;
        lemma_spread(br, 1 as real, x);
        assert(1 as real * x == x) by (nonlinear_arith);
        assert(e(br * x + x) == e(br * x) * e(x));
        assert(e(br * x) * e(x) == e(x) * e(br * x)) by (nonlinear_arith);
    }
}

pub proof fn lemma_nonneg_product(x: real, y: real)
    requires
        x >= 0 as real,
        y >= 0 as real,
    ensures
        x * y >= 0 as real,
{
    assert(x * y >= 0 as real) by (nonlinear_arith)
        requires
            x >= 0 as real,
            y >= 0 as real,
    ;
}

} // verus!
