//! What filter sections do: the difference equation, and which frequencies they pass.
use vstd::arithmetic::power2::{lemma2_to64, pow2};
use vstd::prelude::*;

use super::biquad::{angle, high_pass_taps, is_high_pass, History, Taps};
use super::eq::{is_band, peak_taps, BandKind};
use super::laws_eq::{
    broad, fine, ideal_peak, led, lemma_exact_two, lemma_inverse, lemma_near_sum,
    lemma_over_is_times, lemma_peak_near, lemma_ratio_near, lemma_same_factor, lemma_twice_cosine,
    lemma_wide, near_coefficients, span,
};
use super::laws_levels::{
    is_pi, is_power_of_ten, law_angle_is_as_set, lemma_constant, lemma_rounded_product,
    lemma_rounded_quotient, lemma_through_answer, lemma_twenty, powers_follow, usable_level,
};
use super::laws_shelf::lemma_once;
use super::level::Elementary;
use crate::accuracy::{
    exact, lemma_eps, lemma_exact, lemma_factor_grows, lemma_group, lemma_minus_error,
    lemma_negated_exact, lemma_norm_product, lemma_over_error, lemma_plus_error, lemma_quotient,
    lemma_share, lemma_spread, norm, tiny,
};
use crate::numbers::{FORTY, MINUS_TWO, SQRT_HALF, TWO};
use crate::single::Single;

verus! {

/// The sample `n` places before position `i` of a block: `one` and `two` are those just before the
/// block.
pub open spec fn earlier(block: Seq<Single>, one: Single, two: Single, i: int, n: int) -> Single {
    if i - n >= 0 {
        block[i - n]
    } else if i - n == -1 {
        one
    } else {
        two
    }
}

/// The history of a section is what came last.
proof fn lemma_history_is_the_past(h: History, t: Taps, input: Seq<Single>, i: int)
    requires
        0 <= i <= input.len(),
    ensures
        ({
            let past = h.after(t, input.take(i));
            let output = h.output(t, input);
            &&& past.x1 == earlier(input, h.x1, h.x2, i, 1)
            &&& past.x2 == earlier(input, h.x1, h.x2, i, 2)
            &&& past.y1 == earlier(output, h.y1, h.y2, i, 1)
            &&& past.y2 == earlier(output, h.y1, h.y2, i, 2)
        }),
    decreases i,
{
    if i > 0 {
        lemma_history_is_the_past(h, t, input, i - 1);
        let block = input.take(i);
        assert(block.drop_last() =~= input.take(i - 1));
        assert(block.last() == input[i - 1]);
    }
}

/// A number is near to `x`, which is at most `b`: `e` is the error in parts of `2^24`.
#[verifier::opaque]
spec fn about(sum: Single, x: real, b: real, e: real) -> bool {
    &&& sum.finite()
    &&& norm(x) <= b
    &&& 0x100_0000 as real * norm(exact(sum) - x) <= e
}

/// What the error of a sum grows to when one more term is added.
spec fn grown(bs: real, bt: real, es: real, et: real) -> real {
    es + et + (bs + bt + (es + et) / 0x100_0000 as real)
}

/// One more term of a sum.
proof fn lemma_next_term(
    sum: Single,
    term: Single,
    xs: real,
    xt: real,
    bs: real,
    bt: real,
    es: real,
    et: real,
)
    requires
        about(sum, xs, bs, es),
        about(term, xt, bt, et),
        bs + bt + (es + et) / 0x100_0000 as real <= broad(),
    ensures
        about(sum.plus(term), xs + xt, bs + bt, grown(bs, bt, es, et)),
        about(sum.minus(term), xs - xt, bs + bt, grown(bs, bt, es, et)),
{
    reveal(about);
    let k: real = 0x100_0000 as real;
    let b: real = bs + bt + (es + et) / k;
    lemma_near_sum(sum, term, xs, xt, es / k, et / k, b, b / k);
}

/// One product.
proof fn lemma_one_term(a: Single, x: Single)
    requires
        a.finite(),
        x.finite(),
        norm(exact(a) * exact(x)) <= broad(),
    ensures
        about(
            a.times(x),
            exact(a) * exact(x),
            norm(exact(a) * exact(x)),
            norm(exact(a) * exact(x)) + 0x100_0000 as real * tiny(),
        ),
{
    reveal(about);
    lemma_wide();
    lemma_rounded_product(a, x);
}

/// A sum of five terms, each rounded, is accurate to eight parts in `2^24` of their amounts.
proof fn lemma_five_terms(
    p: (Single, Single, Single, Single, Single),
    x: (real, real, real, real, real),
    b: (real, real, real, real, real),
    u: real,
)
    requires
        about(p.0, x.0, b.0, b.0 + u),
        about(p.1, x.1, b.1, b.1 + u),
        about(p.2, x.2, b.2, b.2 + u),
        about(p.3, x.3, b.3, b.3 + u),
        about(p.4, x.4, b.4, b.4 + u),
        b.0 >= 0 as real && b.1 >= 0 as real && b.2 >= 0 as real && b.3 >= 0 as real && b.4
            >= 0 as real,
        0 as real <= u <= 1 as real,
        8 as real * (b.0 + b.1 + b.2 + b.3 + b.4) + 8 as real <= broad(),
    ensures
        about(
            p.0.plus(p.1).plus(p.2).minus(p.3).minus(p.4),
            x.0 + x.1 + x.2 - x.3 - x.4,
            b.0 + b.1 + b.2 + b.3 + b.4,
            8 as real * (b.0 + b.1 + b.2 + b.3 + b.4) + 16 as real * u,
        ),
{
    let s1 = p.0.plus(p.1);
    let s2 = s1.plus(p.2);
    let s3 = s2.minus(p.3);
    let e0: real = b.0 + u;
    lemma_next_term(p.0, p.1, x.0, x.1, b.0, b.1, e0, b.1 + u);
    let e1: real = grown(b.0, b.1, e0, b.1 + u);
    lemma_next_term(s1, p.2, x.0 + x.1, x.2, b.0 + b.1, b.2, e1, b.2 + u);
    let e2: real = grown(b.0 + b.1, b.2, e1, b.2 + u);
    lemma_next_term(s2, p.3, x.0 + x.1 + x.2, x.3, b.0 + b.1 + b.2, b.3, e2, b.3 + u);
    let e3: real = grown(b.0 + b.1 + b.2, b.3, e2, b.3 + u);
    let bs: real = b.0 + b.1 + b.2 + b.3;
    lemma_next_term(s3, p.4, x.0 + x.1 + x.2 - x.3, x.4, bs, b.4, e3, b.4 + u);
    let e4: real = grown(bs, b.4, e3, b.4 + u);
    assert(e4 <= 8 as real * (b.0 + b.1 + b.2 + b.3 + b.4) + 16 as real * u);
    reveal(about);
}

/// The terms of the difference equation at position `i` of a block.
pub open spec fn terms(h: History, t: Taps, input: Seq<Single>, output: Seq<Single>, i: int) -> (
    real,
    real,
    real,
    real,
    real,
) {
    (
        exact(t.b0) * exact(input[i]),
        exact(t.b1) * exact(earlier(input, h.x1, h.x2, i, 1)),
        exact(t.b2) * exact(earlier(input, h.x1, h.x2, i, 2)),
        exact(t.a1) * exact(earlier(output, h.y1, h.y2, i, 1)),
        exact(t.a2) * exact(earlier(output, h.y1, h.y2, i, 2)),
    )
}

/// The amounts of five terms, added up.
pub open spec fn amounts(x: (real, real, real, real, real)) -> real {
    norm(x.0) + norm(x.1) + norm(x.2) + norm(x.3) + norm(x.4)
}

/// A section gives for every sample what its coefficients make of the last three samples that went
/// in, less what they make of the last two that came out, up to rounding.
pub proof fn law_section_is_a_difference_equation(h: History, t: Taps, input: Seq<Single>, i: int)
    requires
        0 <= i < input.len(),
        t.b0.finite() && t.b1.finite() && t.b2.finite() && t.a1.finite() && t.a2.finite(),
        input[i].finite(),
        earlier(input, h.x1, h.x2, i, 1).finite(),
        earlier(input, h.x1, h.x2, i, 2).finite(),
        earlier(h.output(t, input), h.y1, h.y2, i, 1).finite(),
        earlier(h.output(t, input), h.y1, h.y2, i, 2).finite(),
        8 as real * amounts(terms(h, t, input, h.output(t, input), i)) + 8 as real <= broad(),
    ensures
        ({
            let output = h.output(t, input);
            let x = terms(h, t, input, output, i);
            &&& output.len() == input.len()
            &&& output[i].finite()
            &&& 0x100_0000 as real * norm(exact(output[i]) - (x.0 + x.1 + x.2 - x.3 - x.4))
                <= 8 as real * amounts(x) + 0x1000_0000 as real * tiny()
        }),
{
    lemma_history_is_the_past(h, t, input, i);
    let past = h.after(t, input.take(i));
    let x = terms(h, t, input, h.output(t, input), i);
    let u: real = 0x100_0000 as real * tiny();
    lemma_wide();
    lemma_one_term(t.b0, input[i]);
    lemma_one_term(t.b1, past.x1);
    lemma_one_term(t.b2, past.x2);
    lemma_one_term(t.a1, past.y1);
    lemma_one_term(t.a2, past.y2);
    lemma_five_terms(
        (
            t.b0.times(input[i]),
            t.b1.times(past.x1),
            t.b2.times(past.x2),
            t.a1.times(past.y1),
            t.a2.times(past.y2),
        ),
        x,
        (norm(x.0), norm(x.1), norm(x.2), norm(x.3), norm(x.4)),
        u,
    );
    reveal(about);
}

/// After a block a section remembers the last two samples that went in, and the last two that came
/// out.
pub proof fn law_section_remembers_two_samples(h: History, t: Taps, input: Seq<Single>)
    ensures
        ({
            let later = h.after(t, input);
            let n = input.len() as int;
            &&& later.x1 == earlier(input, h.x1, h.x2, n, 1)
            &&& later.x2 == earlier(input, h.x1, h.x2, n, 2)
            &&& later.y1 == earlier(h.output(t, input), h.y1, h.y2, n, 1)
            &&& later.y2 == earlier(h.output(t, input), h.y1, h.y2, n, 2)
        }),
{
    let n: int = input.len() as int;
    lemma_history_is_the_past(h, t, input, n);
    assert(input.take(n) =~= input);
}

/// The squared amount of `n.0 + n.1 * z + n.2 * z * z` at the point `z` of the unit circle with the
/// real part `x`: the power that three coefficients give to the frequency with that cosine.
pub open spec fn power_at(n: (real, real, real), x: real) -> real {
    let re = (n.0 + n.2) * x + n.1;
    let im = n.0 - n.2;
    re * re + (im * im) * (1 as real - x * x)
}

/// The coefficients are those of the section that feeds forward `n` and feeds back `m`, divided by
/// `m.0`, to `g` and to `h`.
pub open spec fn is_section(
    t: Taps,
    n: (real, real, real),
    m: (real, real, real),
    g: real,
    h: real,
) -> bool {
    &&& m.0 > 0 as real
    &&& t.b0.finite() && t.b1.finite() && t.b2.finite() && t.a1.finite() && t.a2.finite()
    &&& norm(exact(t.b0) - n.0 / m.0) <= g
    &&& norm(exact(t.b1) - n.1 / m.0) <= g
    &&& norm(exact(t.b2) - n.2 / m.0) <= g
    &&& norm(exact(t.a1) - m.1 / m.0) <= h
    &&& norm(exact(t.a2) - m.2 / m.0) <= h
}

/// The host's sines and cosines are accurate to `d`, a sine to that share of itself, for angles up
/// to nearly half a turn, of which no sine is negative.
pub open spec fn turns_follow<M: Elementary>(
    m: &M,
    sine: spec_fn(real) -> real,
    cosine: spec_fn(real) -> real,
    d: real,
) -> bool {
    &&& forall|x: real| #[trigger] sine(x) * sine(x) + cosine(x) * cosine(x) == 1 as real
    &&& forall|x: real|
        0 as real <= x && 100 as real * x <= 314 as real ==> #[trigger] sine(x) >= 0 as real
    &&& forall|x: Single, r: Single| #[trigger]
        call_ensures(M::sin, (m, x), r) && x.finite() && 0 as real <= exact(x) && 100 as real
            * exact(x) <= 314 as real ==> r.finite() && exact(r) >= 0 as real && norm(
            exact(r) - sine(exact(x)),
        ) <= d * sine(exact(x))
    &&& forall|x: Single, r: Single| #[trigger]
        call_ensures(M::cos, (m, x), r) && x.finite() && 0 as real <= exact(x) && 100 as real
            * exact(x) <= 314 as real ==> r.abs().bits <= Single::one().bits && norm(
            exact(r) - cosine(exact(x)),
        ) <= d
}

/// A frequency below half the sample rate.
pub open spec fn usable_frequency(freq_hz: Single, sample_rate: Single) -> bool {
    &&& freq_hz.finite()
    &&& sample_rate.finite()
    &&& 1 as real <= exact(freq_hz)
    &&& 2000 as real * exact(freq_hz) <= 999 as real * exact(sample_rate)
    &&& exact(sample_rate) <= 0x1_0000_0000 as real
}

/// The angle is `2 * pi` times the frequency over the sample rate, to five parts in `2^24`.
pub open spec fn is_angle(theta: real, freq_hz: Single, sample_rate: Single, pi: real) -> bool {
    0x100_0000 as real * norm(theta * exact(sample_rate) - (2 as real * pi) * exact(freq_hz))
        <= 5 as real * ((2 as real * pi) * exact(freq_hz)) + 1 as real
}

/// The angle of a frequency below half the sample rate lies below half a turn.
pub proof fn lemma_angle(freq_hz: Single, sample_rate: Single, pi: real)
    requires
        usable_frequency(freq_hz, sample_rate),
        is_pi(pi),
    ensures
        angle(freq_hz, sample_rate).finite(),
        is_angle(exact(angle(freq_hz, sample_rate)), freq_hz, sample_rate, pi),
        exact(angle(freq_hz, sample_rate)) >= 0 as real,
        100 as real * exact(angle(freq_hz, sample_rate)) <= 314 as real,
{
    law_angle_is_as_set(freq_hz, sample_rate, pi);
    let f: real = exact(freq_hz);
    let r: real = exact(sample_rate);
    let w: real = exact(angle(freq_hz, sample_rate));
    let full: real = 2 as real * pi;
    let ff: real = full * f;
    lemma_factor_grows(2000 as real * f, 999 as real * r, full);
    assert(full * (2000 as real * f) == 2000 as real * ff && full * (999 as real * r)
        == 999 as real * (full * r)) by (nonlinear_arith)
        requires
            ff == full * f,
    ;
    lemma_factor_grows(full, 62_831_853_072 as real / 10_000_000_000 as real, r);
    lemma_factor_grows(6 as real, full, f);
    assert(6 as real * f >= 6 as real);
    let wr: real = w * r;
    assert(wr >= 0 as real);
    assert(w >= 0 as real) by (nonlinear_arith)
        requires
            w * r >= 0 as real,
            r > 0 as real,
    ;
    assert(1000 as real * wr <= 3139 as real * r);
    assert(1000 as real * w <= 3139 as real) by (nonlinear_arith)
        requires
            1000 as real * (w * r) <= 3139 as real * r,
            r > 0 as real,
    ;
}

/// The squares of numbers that are near to each other are near to each other.
proof fn lemma_near_squares(x: real, y: real, e: real, b: real)
    requires
        norm(x) <= b,
        norm(y) <= b,
        norm(x - y) <= e,
    ensures
        norm(x * x - y * y) <= (2 as real * b) * e,
{
    let d: real = x - y;
    let s: real = x + y;
    assert(x * x - y * y == d * s) by (nonlinear_arith)
        requires
            d == x - y,
            s == x + y,
    ;
    lemma_norm_product(d, s);
    lemma_norm_product(s, d);
    lemma_factor_grows(norm(s), 2 as real * b, norm(d));
    lemma_factor_grows(norm(d), e, 2 as real * b);
}

/// Neither a sine nor a cosine exceeds one.
pub proof fn lemma_on_the_circle(s: real, c: real)
    requires
        s * s + c * c == 1 as real,
    ensures
        norm(s) <= 1 as real,
        norm(c) <= 1 as real,
{
    assert(s <= 1 as real && -(1 as real) <= s) by (nonlinear_arith)
        requires
            s * s + c * c == 1 as real,
    ;
    assert(c <= 1 as real && -(1 as real) <= c) by (nonlinear_arith)
        requires
            s * s + c * c == 1 as real,
    ;
}

/// The divisor of the sine is near to the square root of two.
proof fn lemma_root_divisor()
    ensures
        ({
            let d = Single::from_bits(TWO).times(Single::from_bits(SQRT_HALF));
            &&& d.finite()
            &&& 7 as real / 5 as real <= exact(d) <= 3 as real / 2 as real
            &&& 0x100_0000 as real * norm(exact(d) * exact(d) - 2 as real) <= 9 as real
        }),
{
    let h = Single::from_bits(SQRT_HALF);
    let two = Single::from_bits(TWO);
    let d = two.times(h);
    lemma_wide();
    lemma_exact_two();
    lemma2_to64();
    lemma_constant(SQRT_HALF, 125, 0xb5_04f3, 24);
    assert(pow2(24) == 0x100_0000);
    assert(exact(h) * 0x100_0000 as real == 0xb5_04f3 as real);
    lemma_rounded_product(two, h);
    let e: real = 0x16a_09e6 as real / 0x100_0000 as real;
    let x: real = exact(d);
    lemma_near_squares(x, e, 2 as real / 0x100_0000 as real, 3 as real / 2 as real);
    assert((2 as real * (3 as real / 2 as real)) * (2 as real / 0x100_0000 as real) == 6 as real
        / 0x100_0000 as real) by (nonlinear_arith);
    let ee: real = e * e;
    assert(0x1_0000_0000_0000 as real * ee == 0x16a_09e6 as real * 0x16a_09e6 as real)
        by (nonlinear_arith)
        requires
            ee == e * e,
            0x100_0000 as real * e == 0x16a_09e6 as real,
    ;
}

/// The term of the fed back power that the bandwidth gives: four times the square of `alpha` is
/// twice what the cosine leaves of one.
proof fn lemma_butterworth(s: Single, c: Single, sr: real, cr: real, d: real)
    requires
        s.finite(),
        c.abs().bits <= Single::one().bits,
        exact(s) >= 0 as real,
        sr >= 0 as real,
        sr * sr + cr * cr == 1 as real,
        norm(exact(s) - sr) <= d * sr,
        norm(exact(c) - cr) <= d,
        0 as real <= d,
        16 as real * d <= 1 as real,
    ensures
        ({
            let alpha = s.over(Single::from_bits(TWO).times(Single::from_bits(SQRT_HALF)));
            let a = exact(alpha);
            let ec = exact(c);
            &&& alpha.finite()
            &&& norm(a) <= 4 as real / 5 as real
            &&& a >= -(1 as real) / 0x100_0000 as real
            &&& norm(2 as real * (1 as real - ec * ec) - 4 as real * (a * a)) <= 9 as real * d
                + 20 as real / 0x100_0000 as real
        }),
{
    let two = Single::from_bits(TWO);
    let dv = two.times(Single::from_bits(SQRT_HALF));
    let alpha = s.over(dv);
    let a: real = exact(alpha);
    let ec: real = exact(c);
    let es: real = exact(s);
    let b: real = exact(dv);
    let k: real = 0x100_0000 as real;
    let top: real = 11 as real / 10 as real;
    lemma_wide();
    lemma_root_divisor();
    lemma_twice_cosine(c);
    lemma_on_the_circle(sr, cr);
    lemma_factor_grows(sr, 1 as real, d);
    assert(d * 1 as real == d) by (nonlinear_arith);
    assert(es <= 17 as real / 16 as real);
    let q: real = es / b;
    lemma_quotient(es, b);
    assert(0 as real <= q <= 77 as real / 100 as real) by (nonlinear_arith)
        requires
            q * b == es,
            b >= 7 as real / 5 as real,
            0 as real <= es <= 17 as real / 16 as real,
    ;
    lemma_rounded_quotient(s, dv);
    // the product with the divisor
    let ab: real = a * b;
    let off: real = a - q;
    lemma_spread(a, q, b);
    lemma_norm_product(off, b);
    lemma_factor_grows(b, 3 as real / 2 as real, norm(off));
    assert(norm(off) * (3 as real / 2 as real) == 3 as real * norm(off) / 2 as real)
        by (nonlinear_arith);
    assert(k * norm(ab - es) <= 6 as real / 5 as real);
    let e1: real = 6 as real / 5 as real / k;
    lemma_near_squares(ab, es, e1, top);
    lemma_near_squares(es, sr, d, top);
    lemma_near_squares(ec, cr, d, 1 as real);
    let tt: real = 2 as real * top;
    assert(tt * d == 22 as real * d / 10 as real && tt * e1 == 22 as real * e1 / 10 as real)
        by (nonlinear_arith)
        requires
            tt == 22 as real / 10 as real,
    ;
    assert((2 as real * 1 as real) * d == 2 as real * d) by (nonlinear_arith);
    let aa: real = a * a;
    let bb: real = b * b;
    assert(ab * ab == aa * bb) by (nonlinear_arith)
        requires
            ab == a * b,
            aa == a * a,
            bb == b * b,
    ;
    let y: real = bb - 2 as real;
    lemma_spread(bb, 2 as real, aa);
    lemma_norm_product(aa, y);
    lemma_norm_product(a, a);
    assert(norm(a) <= 4 as real / 5 as real);
    let na: real = norm(a);
    assert(na * na <= 64 as real / 100 as real) by (nonlinear_arith)
        requires
            0 as real <= na <= 4 as real / 5 as real,
    ;
    lemma_factor_grows(norm(aa), 64 as real / 100 as real, norm(y));
    assert((64 as real / 100 as real) * norm(y) == 64 as real * norm(y) / 100 as real)
        by (nonlinear_arith);
    assert(aa * 2 as real == 2 as real * aa) by (nonlinear_arith);
}

/// The coefficients of a high-pass filter are those of a section that passes, at every frequency,
/// what a Butterworth filter of the cutoff that was set passes: with the cosine `c` of the cutoff
/// and the cosine `x` of the frequency, its power is more than one half where `x < c`, that is
/// above the cutoff, one half at the cutoff, and less below, up to the small remainder `r`; and
/// nothing passes at the frequency zero. The angle of the cutoff, `c`, `r` and the section are
/// returned.
pub proof fn law_high_pass_cuts_at_its_cutoff<M: Elementary>(
    m: &M,
    sine: spec_fn(real) -> real,
    cosine: spec_fn(real) -> real,
    cutoff_hz: Single,
    sample_rate: Single,
    t: Taps,
    pi: real,
    d: real,
) -> (r: (real, real, real, (real, real, real), (real, real, real)))
    requires
        is_pi(pi),
        0 as real <= d,
        16 as real * d <= 1 as real,
        turns_follow(m, sine, cosine, d),
        usable_frequency(cutoff_hz, sample_rate),
        is_high_pass(m, cutoff_hz, sample_rate, t),
    ensures
        is_angle(r.0, cutoff_hz, sample_rate, pi),
        norm(r.1 - cosine(r.0)) <= d,
        norm(r.1) <= 1 as real,
        norm(r.2) <= 9 as real * d + 20 as real / 0x100_0000 as real,
        is_section(t, r.3, r.4, 40 as real / 0x100_0000 as real, 40 as real / 0x100_0000 as real),
        forall|x: real|
            2 as real * #[trigger] power_at(r.3, x) - power_at(r.4, x) == 4 as real * ((r.1 - x) * (
            1 as real - r.1 * x)) + (1 as real - x * x) * r.2,
        power_at(r.3, 1 as real) == 0 as real,
        forall|x: real|
            #[trigger] power_at(r.3, x) == ((1 as real + r.1) * (1 as real - x)) * ((1 as real
                + r.1) * (1 as real - x)),
{
    let w = angle(cutoff_hz, sample_rate);
    let theta: real = exact(w);
    let k: real = 0x100_0000 as real;
    lemma_angle(cutoff_hz, sample_rate, pi);
    let (s, c) = choose|s: Single, c: Single|
        {
            &&& #[trigger] call_ensures(M::sin, (m, angle(cutoff_hz, sample_rate)), s)
            &&& #[trigger] call_ensures(M::cos, (m, angle(cutoff_hz, sample_rate)), c)
            &&& t == high_pass_taps(s, c)
        };
    assert(sine(theta) * sine(theta) + cosine(theta) * cosine(theta) == 1 as real);
    lemma_butterworth(s, c, sine(theta), cosine(theta), d);
    let alpha = s.over(Single::from_bits(TWO).times(Single::from_bits(SQRT_HALF)));
    let a: real = exact(alpha);
    let ec: real = exact(c);
    lemma_twice_cosine(c);
    let n: (real, real, real) = (
        (1 as real + ec) / 2 as real,
        -(1 as real + ec),
        (1 as real + ec) / 2 as real,
    );
    let mm: (real, real, real) = (1 as real + a, -(2 as real) * ec, 1 as real - a);
    let rest: real = 2 as real * (1 as real - ec * ec) - 4 as real * (a * a);
    lemma_high_pass_section(s, c, alpha, t);
    assert forall|x: real|
        2 as real * #[trigger] power_at(n, x) - power_at(mm, x) == 4 as real * ((ec - x) * (
        1 as real - ec * x)) + (1 as real - x * x) * rest by {
        lemma_high_pass_power(ec, a, x);
    }
    assert forall|x: real| #[trigger]
        power_at(n, x) == ((1 as real + ec) * (1 as real - x)) * ((1 as real + ec) * (1 as real
            - x)) by {
        lemma_high_pass_power(ec, a, x);
    }
    lemma_high_pass_power(ec, a, 1 as real);
    assert((1 as real + ec) * 0 as real == 0 as real) by (nonlinear_arith);
    (theta, ec, rest, n, mm)
}

/// The power of an ideal high-pass filter.
proof fn lemma_high_pass_power(c: real, a: real, x: real)
    ensures
        ({
            let n = ((1 as real + c) / 2 as real, -(1 as real + c), (1 as real + c) / 2 as real);
            let m = (1 as real + a, -(2 as real) * c, 1 as real - a);
            let u = (1 as real + c) * (1 as real - x);
            &&& power_at(n, x) == u * u
            &&& 2 as real * power_at(n, x) - power_at(m, x) == 4 as real * ((c - x) * (1 as real - c
                * x)) + (1 as real - x * x) * (2 as real * (1 as real - c * c) - 4 as real * (a
                * a))
        }),
{
    let u: real = (1 as real + c) * (1 as real - x);
    let o: real = 1 as real + c;
    let y: real = 1 as real - x * x;
    assert(o * x - o == -u) by (nonlinear_arith)
        requires
            u == o * (1 as real - x),
    ;
    assert((-u) * (-u) == u * u) by (nonlinear_arith);
    assert((0 as real * 0 as real) * y == 0 as real) by (nonlinear_arith);
    let re: real = 2 as real * x + (-(2 as real) * c);
    let im: real = 2 as real * a;
    let aa: real = a * a;
    let z: real = x - c;
    assert(re == 2 as real * z) by (nonlinear_arith)
        requires
            re == 2 as real * x + (-(2 as real) * c),
            z == x - c,
    ;
    assert(re * re == 4 as real * (z * z)) by (nonlinear_arith)
        requires
            re == 2 as real * z,
    ;
    assert((im * im) * y == 4 as real * (aa * y)) by (nonlinear_arith)
        requires
            im == 2 as real * a,
            aa == a * a,
    ;
    let cc: real = c * c;
    let xx: real = x * x;
    let cx: real = c * x;
    assert(u * u == (1 as real + 2 as real * c + cc) * (1 as real - 2 as real * x + xx))
        by (nonlinear_arith)
        requires
            u == (1 as real + c) * (1 as real - x),
            cc == c * c,
            xx == x * x,
    ;
    lemma_high_pass_polynomial(c, x, aa);
}

/// The polynomial behind the power of a high-pass filter.
proof fn lemma_high_pass_polynomial(c: real, x: real, aa: real)
    ensures
        ({
            let u = (1 as real + c) * (1 as real - x);
            let y = 1 as real - x * x;
            let z = x - c;
            2 as real * (u * u) - (4 as real * (z * z) + 4 as real * (aa * y)) == 4 as real * ((c
                - x) * (1 as real - c * x)) + y * (2 as real * (1 as real - c * c) - 4 as real * aa)
        }),
{
    let u: real = (1 as real + c) * (1 as real - x);
    let v: real = (1 as real - c) * (1 as real + x);
    let y: real = 1 as real - x * x;
    let g: real = 1 as real - c * c;
    let z: real = x - c;
    let e: real = 1 as real - c * x;
    assert(u - v == -(2 as real * z)) by (nonlinear_arith)
        requires
            u == (1 as real + c) * (1 as real - x),
            v == (1 as real - c) * (1 as real + x),
            z == x - c,
    ;
    assert(u + v == 2 as real * e) by (nonlinear_arith)
        requires
            u == (1 as real + c) * (1 as real - x),
            v == (1 as real - c) * (1 as real + x),
            e == 1 as real - c * x,
    ;
    assert(u * v == g * y) by (nonlinear_arith)
        requires
            u == (1 as real + c) * (1 as real - x),
            v == (1 as real - c) * (1 as real + x),
            g == 1 as real - c * c,
            y == 1 as real - x * x,
    ;
    let zz: real = z * z;
    assert((u - v) * (u - v) == 4 as real * zz) by (nonlinear_arith)
        requires
            u - v == -(2 as real * z),
            zz == z * z,
    ;
    let uu: real = u * u;
    let uv: real = u * v;
    let vv: real = v * v;
    assert((u - v) * (u - v) == uu - 2 as real * uv + vv) by (nonlinear_arith)
        requires
            uu == u * u,
            uv == u * v,
            vv == v * v,
    ;
    assert((u - v) * (u + v) == uu - vv) by (nonlinear_arith)
        requires
            uu == u * u,
            vv == v * v,
    ;
    assert((u - v) * (u + v) == 4 as real * ((c - x) * e)) by (nonlinear_arith)
        requires
            u - v == -(2 as real * z),
            u + v == 2 as real * e,
            z == x - c,
    ;
    assert(y * (2 as real * g - 4 as real * aa) == 2 as real * (g * y) - 4 as real * (aa * y))
        by (nonlinear_arith);
}

/// The coefficients of a high-pass filter are near to the ideal ones.
proof fn lemma_high_pass_section(s: Single, c: Single, alpha: Single, t: Taps)
    requires
        alpha == s.over(Single::from_bits(TWO).times(Single::from_bits(SQRT_HALF))),
        t == high_pass_taps(s, c),
        c.abs().bits <= Single::one().bits,
        alpha.finite(),
        norm(exact(alpha)) <= 4 as real / 5 as real,
        exact(alpha) >= -(1 as real) / 0x100_0000 as real,
    ensures
        ({
            let ec = exact(c);
            let a = exact(alpha);
            let n = ((1 as real + ec) / 2 as real, -(1 as real + ec), (1 as real + ec) / 2 as real);
            let m = (1 as real + a, -(2 as real) * ec, 1 as real - a);
            is_section(t, n, m, 40 as real / 0x100_0000 as real, 40 as real / 0x100_0000 as real)
        }),
{
    let one = Single::one();
    let two = Single::from_bits(TWO);
    let ec: real = exact(c);
    let a: real = exact(alpha);
    let k: real = 0x100_0000 as real;
    lemma_wide();
    lemma_share(one);
    lemma_twice_cosine(c);
    lemma_exact_two();
    let up = one.plus(c);
    lemma_plus_error(one, c);
    lemma_eps(norm(1 as real + ec));
    lemma_rounded_quotient(up, two);
    lemma_negated_exact(up);
    let a0 = one.plus(alpha);
    lemma_plus_error(one, alpha);
    lemma_eps(norm(1 as real + a));
    lemma_minus_error(one, alpha);
    lemma_eps(norm(1 as real - a));
    lemma_rounded_product(Single::from_bits(MINUS_TWO), c);
    let e: real = 3 as real / k;
    let y: real = 1 as real + a;
    lemma_factor_grows(1 as real / k, e, y);
    assert((1 as real / k) * y == y / k) by (nonlinear_arith)
        requires
            k == 0x100_0000 as real,
    ;
    assert(e * 1 as real == e) by (nonlinear_arith);
    lemma_factor_grows(2 as real, span(), y);
    assert(1 as real * y == y) by (nonlinear_arith);
    assert(span() * y >= 1 as real);
    assert(span() * 1 as real == span()) by (nonlinear_arith);
    let one_r: real = 1 as real;
    lemma_ratio_near(up.over(two), a0, (1 as real + ec) / 2 as real, y, one_r, e);
    lemma_ratio_near(up.negated(), a0, -(1 as real + ec), y, one_r, e);
    lemma_ratio_near(
        Single::from_bits(MINUS_TWO).times(c),
        a0,
        -(2 as real) * ec,
        y,
        one_r,
        e,
    );
    lemma_ratio_near(one.minus(alpha), a0, 1 as real - a, y, one_r, e);
    let z: real = one_r / y;
    lemma_quotient(one_r, y);
    assert(z <= 10 as real / 9 as real) by (nonlinear_arith)
        requires
            z * y == 1 as real,
            y >= 9 as real / 10 as real,
    ;
    lemma_factor_grows(z, 10 as real / 9 as real, e);
    assert(e * (10 as real / 9 as real) == 10 as real * e / 9 as real) by (nonlinear_arith);
}

/// Coefficients that are near to ideal ones make a section that is near to the ideal one.
pub proof fn lemma_section_of(
    b: (Single, Single, Single),
    a: (Single, Single, Single),
    n: (real, real, real),
    m: (real, real, real),
    e: real,
)
    requires
        fine(e),
        led(n),
        led(m),
        n.0 <= span() * m.0,
        m.0 <= span() * n.0,
        near_coefficients(b, a, 1 as real, n, m, e),
    ensures
        is_section(
            Taps::normalised(b.0, b.1, b.2, a.0, a.1, a.2),
            n,
            m,
            12 as real * (e * (n.0 / m.0)),
            12 as real * e,
        ),
{
    lemma_wide();
    lemma_once(n);
    lemma_once(m);
    lemma_ratio_near(b.0, a.0, n.0, m.0, n.0, e);
    lemma_ratio_near(b.1, a.0, n.1, m.0, n.0, e);
    lemma_ratio_near(b.2, a.0, n.2, m.0, n.0, e);
    lemma_factor_grows(1 as real, span(), m.0);
    lemma_ratio_near(a.1, a.0, m.1, m.0, m.0, e);
    lemma_ratio_near(a.2, a.0, m.2, m.0, m.0, e);
    let o: real = m.0 / m.0;
    lemma_quotient(m.0, m.0);
    lemma_same_factor(o, 1 as real, m.0);
    assert(e * 1 as real == e) by (nonlinear_arith);
}

/// A number that rounding has brought below zero by at most half a unit is not negative.
pub proof fn lemma_not_below_zero(x: Single)
    requires
        x.finite(),
        exact(x) >= -tiny(),
    ensures
        exact(x) >= 0 as real,
{
    lemma_exact(x);
    reveal(tiny);
    let u: real = pow2(149) as real;
    let e: real = exact(x);
    let t: real = tiny();
    lemma_quotient(1 as real, 2 as real * u);
    lemma_factor_grows(-t, e, u);
    assert((-t) * u == -(t * u)) by (nonlinear_arith);
    assert(2 as real * (t * u) == 1 as real) by (nonlinear_arith)
        requires
            t * (2 as real * u) == 1 as real,
    ;
    assert(x.value() as real >= -(1 as real) / 2 as real);
    assert(x.value() >= 0);
    assert(e >= 0 as real) by (nonlinear_arith)
        requires
            e * u >= 0 as real,
            u > 0 as real,
    ;
}

/// A sine over twice a Q.
proof fn lemma_bandwidth(s: Single, q: Single)
    requires
        s.finite(),
        0 as real <= exact(s) <= 2 as real,
        q.finite(),
        1 as real <= 1024 as real * exact(q),
        exact(q) <= 1024 as real,
    ensures
        ({
            let alpha = s.over(Single::from_bits(TWO).times(q));
            &&& alpha.finite()
            &&& 0 as real <= exact(alpha) <= 2048 as real
            &&& norm(exact(alpha) * (2 as real * exact(q)) - exact(s)) <= 4 as real * exact(s)
                / 0x100_0000 as real + 4096 as real * tiny()
        }),
{
    let two = Single::from_bits(TWO);
    let dv = two.times(q);
    let alpha = s.over(dv);
    let es: real = exact(s);
    let g: real = 2 as real * exact(q);
    let b: real = exact(dv);
    let a: real = exact(alpha);
    let k: real = 0x100_0000 as real;
    let t: real = tiny();
    lemma_wide();
    lemma_exact_two();
    lemma_rounded_product(two, q);
    assert(1025 as real * b >= 1 as real);
    assert(b > 0 as real);
    let v: real = es / b;
    lemma_quotient(es, b);
    assert(0 as real <= v <= 2050 as real) by (nonlinear_arith)
        requires
            v * b == es,
            1025 as real * b >= 1 as real,
            b > 0 as real,
            0 as real <= es <= 2 as real,
    ;
    lemma_over_error(s, dv);
    lemma_eps(norm(v));
    lemma_rounded_quotient(s, dv);
    assert(a >= -t) by {
        if norm(a - v) <= t {
        } else {
            assert(k * norm(a - v) <= v);
        }
    }
    lemma_not_below_zero(alpha);
    // the products
    let ab: real = a * b;
    let off: real = a - v;
    lemma_spread(a, v, b);
    lemma_norm_product(off, b);
    lemma_factor_grows(k * norm(off), v + k * t, b);
    lemma_spread(v, k * t, b);
    lemma_group(k, norm(off), b);
    lemma_factor_grows(b, 2049 as real, k * t);
    assert(k * norm(ab - es) <= es + 2049 as real * (k * t));
    let y: real = g - b;
    lemma_spread(g, b, a);
    lemma_norm_product(a, y);
    assert(k * norm(y) <= g + k * t);
    assert(k * norm(y) <= (1026 as real / 1024 as real) * b) by {
        assert((1026 as real / 1024 as real) * b == 1026 as real * b / 1024 as real)
            by (nonlinear_arith);
    }
    lemma_factor_grows(k * norm(y), (1026 as real / 1024 as real) * b, a);
    assert(a * ((1026 as real / 1024 as real) * b) == 1026 as real * ab / 1024 as real)
        by (nonlinear_arith)
        requires
            ab == a * b,
    ;
    assert(a * (k * norm(y)) == k * (a * norm(y))) by (nonlinear_arith);
    assert(norm(a * g - es) <= 4 as real * es / k + 4096 as real * t);
    assert(a <= 2048 as real) by {
        assert(g * 1024 as real >= 2 as real);
        assert(a <= 2048 as real) by (nonlinear_arith)
            requires
                a * g <= 3 as real,
                1024 as real * g >= 2 as real,
                a >= 0 as real,
        ;
    }
}

/// Ten to the power of a fortieth of a level.
pub proof fn lemma_fortieth<M: Elementary>(
    m: &M,
    p: spec_fn(real) -> real,
    db: Single,
    r: Single,
    d: real,
)
    requires
        is_power_of_ten(p),
        0 as real <= d,
        16 as real * d <= 1 as real,
        powers_follow(m, p, d),
        call_ensures(M::power_of_ten, (m, db.over(Single::from_bits(FORTY))), r),
        usable_level(db),
    ensures
        r.finite(),
        norm(exact(r) - p(exact(db) / 40 as real)) <= (2 as real * d + 100 as real
            / 0x100_0000 as real) * p(exact(db) / 40 as real),
        exact(r) > 0 as real,
        exact(r) <= 20_000_000_000_000_000 as real,
        20_000_000_000_000_000 as real * exact(r) >= 1 as real,
{
    let c = Single::from_bits(FORTY);
    let x = db.over(c);
    let q: real = exact(db) / 40 as real;
    let k: real = 0x100_0000 as real;
    lemma_wide();
    lemma_twenty();
    lemma_rounded_quotient(db, c);
    let y: real = exact(x) - q;
    assert(k * norm(y) <= 31 as real);
    assert(exact(x) == q + y);
    assert(p(q + y) == p(q) * p(y));
    lemma_through_answer(exact(r), p(exact(x)), p(q), p(y), d, 100 as real / k);
    // how large it can be
    assert(p(1 as real + 1 as real) == p(1 as real) * p(1 as real));
    assert(p(2 as real + 2 as real) == p(2 as real) * p(2 as real));
    assert(p(4 as real + 4 as real) == p(4 as real) * p(4 as real));
    assert(p(8 as real + 8 as real) == p(8 as real) * p(8 as real));
    assert(p(16 as real) == 10_000_000_000_000_000 as real);
    let low: real = p(-(16 as real));
    let high: real = p(16 as real);
    assert(p(-(16 as real) + 16 as real) == low * high);
    assert(p(0 as real + 1 as real) == p(0 as real) * p(1 as real));
    assert(low * high == 1 as real);
    let right: real = p(q);
    assert(right <= high && low <= right);
    let share: real = 2 as real * d + 100 as real / k;
    lemma_factor_grows(share, 1 as real / 4 as real, right);
    assert((1 as real / 4 as real) * right == right / 4 as real) by (nonlinear_arith);
}

/// The power of an ideal peak band.
proof fn lemma_peak_power(f: real, c: real, x: real)
    ensures
        power_at((1 as real + f, -(2 as real * c), 1 as real - f), x) == 4 as real * ((x - c) * (x
            - c)) + 4 as real * ((f * f) * (1 as real - x * x)),
{
    let z: real = x - c;
    let re: real = 2 as real * x + (-(2 as real * c));
    let im: real = 2 as real * f;
    let y: real = 1 as real - x * x;
    assert(re * re == 4 as real * (z * z)) by (nonlinear_arith)
        requires
            re == 2 as real * z,
    ;
    assert((im * im) * y == 4 as real * ((f * f) * y)) by (nonlinear_arith)
        requires
            im == 2 as real * f,
    ;
}

/// The coefficients of a peak band are those of a section that boosts or cuts around the frequency
/// that was set: with the cosine `c` of that frequency and the cosine `x` of any other, the power
/// fed forward is `4 * (x - c)^2` and `4 * (alpha * a)^2 * (1 - x^2)`, and the power fed back is
/// that with the inverse of `a`. So the power is one far off, and the fourth power of `a`, the
/// square of the linear gain that was set, at the frequency itself; and `alpha` is the sine over
/// twice the Q. The angle, `c`, `alpha`, `a` and the section are returned.
pub proof fn law_peak_band_acts_around_its_frequency<M: Elementary>(
    m: &M,
    sine: spec_fn(real) -> real,
    cosine: spec_fn(real) -> real,
    p: spec_fn(real) -> real,
    freq_hz: Single,
    gain_db: Single,
    q: Single,
    sample_rate: Single,
    t: Taps,
    pi: real,
    d: real,
) -> (r: (real, real, real, real, (real, real, real), (real, real, real)))
    requires
        is_pi(pi),
        is_power_of_ten(p),
        0 as real <= d,
        16 as real * d <= 1 as real,
        turns_follow(m, sine, cosine, d),
        powers_follow(m, p, d),
        usable_frequency(freq_hz, sample_rate),
        usable_level(gain_db),
        q.finite(),
        1 as real <= 1024 as real * exact(q),
        exact(q) <= 1024 as real,
        is_band(m, BandKind::Peak, freq_hz, gain_db, q, sample_rate, t),
    ensures
        is_angle(r.0, freq_hz, sample_rate, pi),
        norm(r.1 - cosine(r.0)) <= d + 2 as real / 0x100_0000 as real,
        r.2 >= 0 as real,
        norm(r.2 * (2 as real * exact(q)) - sine(r.0)) <= (2 as real * d + 8 as real
            / 0x100_0000 as real) * sine(r.0) + 4096 as real * tiny(),
        r.3 > 0 as real,
        norm(r.3 - p(exact(gain_db) / 40 as real)) <= (2 as real * d + 100 as real
            / 0x100_0000 as real) * p(exact(gain_db) / 40 as real),
        is_section(
            t,
            r.4,
            r.5,
            12 as real * ((8 as real / 0x100_0000 as real) * (r.4.0 / r.5.0)),
            12 as real * (8 as real / 0x100_0000 as real),
        ),
        forall|x: real|
            #[trigger] power_at(r.4, x) == 4 as real * ((x - r.1) * (x - r.1)) + 4 as real * (((r.2
                * r.3) * (r.2 * r.3)) * (1 as real - x * x)),
        forall|x: real|
            #[trigger] power_at(r.5, x) == 4 as real * ((x - r.1) * (x - r.1)) + 4 as real * (((r.2
                / r.3) * (r.2 / r.3)) * (1 as real - x * x)),
{
    let theta: real = exact(angle(freq_hz, sample_rate));
    let k: real = 0x100_0000 as real;
    let one = Single::one();
    lemma_wide();
    lemma_angle(freq_hz, sample_rate, pi);
    let (s, c, a) = choose|s: Single, c: Single, a: Single|
        {
            &&& #[trigger] call_ensures(M::sin, (m, angle(freq_hz, sample_rate)), s)
            &&& #[trigger] call_ensures(M::cos, (m, angle(freq_hz, sample_rate)), c)
            &&& #[trigger] call_ensures(
                M::power_of_ten,
                (m, gain_db.over(Single::from_bits(FORTY))),
                a,
            )
            &&& t == peak_taps(q, s, c, a)
        };
    let sr: real = sine(theta);
    assert(sr * sr + cosine(theta) * cosine(theta) == 1 as real);
    lemma_on_the_circle(sr, cosine(theta));
    assert(sr >= 0 as real);
    lemma_factor_grows(d, 1 as real / 16 as real, sr);
    assert((1 as real / 16 as real) * sr == sr / 16 as real) by (nonlinear_arith);
    let es: real = exact(s);
    lemma_bandwidth(s, q);
    let alpha = s.over(Single::from_bits(TWO).times(q));
    let al: real = exact(alpha);
    lemma_spread(2 as real * d, 8 as real / k, sr);
    assert((2 as real * d) * sr == 2 as real * (d * sr)) by (nonlinear_arith);
    assert((8 as real / k) * sr == 8 as real * sr / k) by (nonlinear_arith)
        requires
            k == 0x100_0000 as real,
    ;
    lemma_fortieth(m, p, gain_db, a, d);
    let ea: real = exact(a);
    lemma_peak_room(al, ea);
    lemma_twice_cosine(c);
    let raw = Single::from_bits(MINUS_TWO).times(c);
    lemma_rounded_product(Single::from_bits(MINUS_TWO), c);
    let cr: real = -exact(raw) / 2 as real;
    assert(norm(cr - exact(c)) <= 2 as real / k);
    lemma_inverse(ea);
    assert(norm(ea - ea) <= (1 as real / k) * ea) by {
        lemma_factor_grows(0 as real, 1 as real / k, ea);
        assert(0 as real * ea == 0 as real) by (nonlinear_arith);
    }
    lemma_peak_near(alpha, a, raw, ea, 1 as real / k);
    let n = ideal_peak(al, ea, exact(raw));
    let mm = ideal_peak(al, 1 as real / ea, exact(raw));
    let up = alpha.times(a);
    let down = alpha.over(a);
    lemma_section_of(
        (one.plus(up), raw, one.minus(up)),
        (one.plus(down), raw, one.minus(down)),
        n,
        mm,
        8 as real / k,
    );
    lemma_over_is_times(al, ea);
    assert forall|x: real| #[trigger]
        power_at(n, x) == 4 as real * ((x - cr) * (x - cr)) + 4 as real * (((al * ea) * (al * ea))
            * (1 as real - x * x)) by {
        lemma_peak_power(al * ea, cr, x);
    }
    assert forall|x: real| #[trigger]
        power_at(mm, x) == 4 as real * ((x - cr) * (x - cr)) + 4 as real * (((al / ea) * (al / ea))
            * (1 as real - x * x)) by {
        lemma_peak_power(al / ea, cr, x);
    }
    (theta, cr, al, ea, n, mm)
}

/// The bandwidth times the root of the gain, and over it, are not too large.
proof fn lemma_peak_room(al: real, a: real)
    requires
        0 as real <= al <= 2048 as real,
        a > 0 as real,
        a <= 20_000_000_000_000_000 as real,
        20_000_000_000_000_000 as real * a >= 1 as real,
    ensures
        al * a <= broad(),
        al / a <= broad(),
{
    let b: real = 20_000_000_000_000_000 as real;
    lemma_wide();
    lemma_broad_room();
    lemma_factor_grows(al, 2048 as real, a);
    let v: real = al / a;
    lemma_quotient(al, a);
    assert(v <= 2048 as real * b) by (nonlinear_arith)
        requires
            v * a == al,
            b * a >= 1 as real,
            a > 0 as real,
            0 as real <= al <= 2048 as real,
    ;
}

proof fn lemma_broad_room()
    ensures
        0x1_0000_0000_0000_0000_0000 as real <= broad(),
{
    reveal(broad);
    lemma2_to64();
    crate::arith::lemma_pow2_sum(16, 64);
    vstd::arithmetic::power2::lemma2_to64_rest();
    crate::arith::lemma_pow2_monotone(80, 120);
}

} // verus!
