//! What the noise gate and the compressor do to levels.
use vstd::prelude::*;

use super::compressor::{gain_reduction_db, Compressor};
use super::gate::Gate;
use super::laws_eq::lemma_wide;
use super::laws_levels::{
    exponentials_follow, is_exponential, is_power_of_ten, law_coefficient_is_exponential,
    law_decibels_count_twentieths, law_levels_count_twentieths, lemma_exact_at_most,
    lemma_exact_zero, lemma_nonneg_product, lemma_rounded_product, lemma_rounded_quotient,
    lemma_through_answer, logarithms_follow, powers_follow, right_amplitude, right_coefficient,
    usable_level, usable_time,
};
use super::laws_ramp::{followed, law_snapped_value_stays, lemma_smooth_error, slack};
use super::laws_runs::{lemma_factor_is_one, steady};
use super::laws_stages::gate_sound;
use super::level::{is_level, is_linear, Elementary};
use super::limiter::Limiter;
use crate::accuracy::{
    exact, large, lemma_eps, lemma_factor_grows, lemma_group, lemma_limits, lemma_minus_error,
    lemma_negated_exact, lemma_norm_product, lemma_quotient, lemma_share, lemma_spread, norm, tiny,
};
use crate::numbers::{HALF, TEN, TWENTY};
use crate::numeric::law_one_is_neutral;
use crate::single::Single;

verus! {

/// The amount of a sample.
pub proof fn lemma_amount(x: Single)
    requires
        x.finite(),
    ensures
        x.abs().finite(),
        exact(x.abs()) == norm(exact(x)),
{
    crate::accuracy::lemma_exact(x);
    crate::accuracy::lemma_exact(x.abs());
    if x.word().neg {
        assert(x.abs() == x.negated());
        lemma_negated_exact(x);
        assert(x.value() <= 0);
        let e: real = exact(x);
        let u: real = vstd::arithmetic::power2::pow2(149) as real;
        assert(e <= 0 as real) by (nonlinear_arith)
            requires
                e * u <= 0 as real,
                u > 0 as real,
        ;
    } else {
        assert(x.abs() == x);
        assert(x.value() >= 0);
        let e: real = exact(x);
        let u: real = vstd::arithmetic::power2::pow2(149) as real;
        assert(e >= 0 as real) by (nonlinear_arith)
            requires
                e * u >= 0 as real,
                u > 0 as real,
        ;
    }
}

/// The reduction that a compressor's curve asks for: what a level exceeds the threshold by, less
/// that over the ratio.
pub open spec fn curve(threshold: real, ratio: real, level: real) -> real {
    if level > threshold {
        (level - threshold) * (1 as real - 1 as real / ratio)
    } else {
        0 as real
    }
}

/// A compressor lets a level through up to its threshold, and beyond it one decibel for as many as
/// the ratio says, up to rounding.
pub proof fn law_compressor_follows_its_curve(threshold_db: Single, ratio: Single, level: Single)
    requires
        threshold_db.finite(),
        ratio.finite(),
        level.finite(),
        norm(exact(threshold_db)) <= 0x1_0000 as real,
        norm(exact(level)) <= 0x1_0000 as real,
        16 as real * exact(ratio) >= 1 as real,
    ensures
        ({
            let r = gain_reduction_db(threshold_db, ratio, level);
            let t = exact(threshold_db);
            let q = exact(ratio);
            let l = exact(level);
            &&& r.finite()
            &&& l <= t ==> r == Single::zero()
            &&& l > t ==> 0x100_0000 as real * norm((l - exact(r)) - (t + (l - t) / q))
                <= 100 as real * (l - t) + 1 as real
            &&& 0x100_0000 as real * norm(exact(r) - curve(t, q, l)) <= 100 as real * norm(l - t)
                + 1 as real
        }),
{
    let one = Single::one();
    let t: real = exact(threshold_db);
    let q: real = exact(ratio);
    let l: real = exact(level);
    let k: real = 0x100_0000 as real;
    lemma_limits();
    lemma_wide();
    lemma_exact_zero();
    lemma_share(one);
    lemma_exact_at_most(level, threshold_db);
    if l > t {
        let over = level.minus(threshold_db);
        let inv = one.over(ratio);
        let keep = one.minus(inv);
        let u: real = l - t;
        let i: real = 1 as real / q;
        lemma_minus_error(level, threshold_db);
        lemma_eps(norm(u));
        lemma_quotient(1 as real, q);
        assert(0 as real <= i <= 16 as real) by (nonlinear_arith)
            requires
                i * q == 1 as real,
                16 as real * q >= 1 as real,
        ;
        lemma_rounded_quotient(one, ratio);
        lemma_minus_error(one, inv);
        lemma_eps(norm(1 as real - exact(inv)));
        let w: real = exact(keep);
        let s: real = 1 as real - i;
        assert(k * norm(w - s) <= 40 as real);
        let eu: real = exact(over);
        lemma_norm_product(eu, w);
        assert(norm(w) <= 20 as real);
        lemma_factor_grows(norm(w), 20 as real, norm(eu));
        lemma_rounded_product(over, keep);
        // the exact product
        let uw: real = eu * w;
        let us: real = u * s;
        let du: real = eu - u;
        let dw: real = w - s;
        assert(uw - us == du * w + u * dw) by (nonlinear_arith)
            requires
                uw == eu * w,
                us == u * s,
                du == eu - u,
                dw == w - s,
        ;
        lemma_norm_product(du, w);
        lemma_norm_product(u, dw);
        lemma_factor_grows(norm(w), 20 as real, norm(du));
        lemma_factor_grows(k * norm(dw), 40 as real, u);
        lemma_group(k, u, norm(dw));
        assert(u * (k * norm(dw)) == k * (u * norm(dw))) by (nonlinear_arith);
        // the kept level
        lemma_spread(1 as real, i, u);
        assert(u * 1 as real == u) by (nonlinear_arith);
        lemma_quotient(u, q);
        let z: real = u / q;
        assert(z == u * i) by (nonlinear_arith)
            requires
                z * q == u,
                i * q == 1 as real,
                16 as real * q >= 1 as real,
        ;
    }
}

/// The factor that the host gives for an envelope at or below the threshold is one.
proof fn lemma_quiet_factor<M: Elementary>(m: &M, c: Compressor, envelope: Single, factor: Single)
    requires
        c.is_factor(m, envelope, factor),
        forall|level: Single| #[trigger]
            is_level(m, envelope, level) ==> !level.gt(c.threshold_db),
        forall|r: Single| #[trigger]
            is_linear(m, Single::zero().negated(), r) ==> r == Single::one(),
    ensures
        factor == Single::one(),
{
    let level = choose|level: Single|
        #[trigger] is_level(m, envelope, level) && is_linear(
            m,
            gain_reduction_db(c.threshold_db, c.ratio, level).negated(),
            factor,
        );
    assert(!level.gt(c.threshold_db));
}

/// What a compressor makes of a sample while the level is at or below the threshold is the sample
/// times the makeup gain, with a host that gives one for zero decibels.
pub proof fn law_quiet_samples_get_the_makeup_gain<M: Elementary>(
    m: &M,
    c: Compressor,
    input: Seq<Single>,
    output: Seq<Single>,
    i: int,
)
    requires
        c.is_output(m, input, output),
        0 <= i < input.len(),
        forall|level: Single| #[trigger]
            is_level(m, c.envelope_after(input.take(i + 1)), level) ==> !level.gt(c.threshold_db),
        forall|r: Single| #[trigger]
            is_linear(m, Single::zero().negated(), r) ==> r == Single::one(),
        input[i].finite(),
        c.makeup.at((i + 1) as nat).finite(),
        norm(exact(input[i]) * exact(c.makeup.at((i + 1) as nat))) <= large(),
    ensures
        ({
            let xu = exact(input[i]) * exact(c.makeup.at((i + 1) as nat));
            &&& output[i].finite()
            &&& 0x100_0000 as real * norm(exact(output[i]) - xu) <= norm(xu) + 0x100_0000 as real
                * tiny()
        }),
{
    let u = c.makeup.at((i + 1) as nat);
    let envelope = c.envelope_after(input.take(i + 1));
    assert(c.compresses(m, input, i, output[i]));
    let factor = choose|factor: Single|
        #[trigger] c.is_factor(m, envelope, factor) && output[i] == input[i].times(
            factor.times(c.makeup.at((i + 1) as nat)),
        );
    lemma_quiet_factor(m, c, envelope, factor);
    law_one_is_neutral(u);
    lemma_rounded_product(input[i], u);
}

/// The product of three numbers, taken two at a time, is accurate to three parts in `2^24`.
proof fn lemma_triple_product(x: Single, f: Single, u: Single)
    requires
        x.finite() && f.finite() && u.finite(),
        norm(exact(x)) <= 0x1_0000_0000 as real,
        norm(exact(f)) <= 0x1_0000_0000 as real,
        norm(exact(u)) <= 0x1_0000_0000 as real,
    ensures
        ({
            let y = exact(x) * (exact(f) * exact(u));
            &&& x.times(f.times(u)).finite()
            &&& 0x100_0000 as real * norm(exact(x.times(f.times(u))) - y) <= 3 as real * norm(y)
                + 0x100_0000 as real * (2 as real * (tiny() * (1 as real + norm(exact(x)))))
            &&& norm(y) == norm(exact(x)) * (norm(exact(f)) * norm(exact(u)))
        }),
{
    let b: real = 0x1_0000_0000 as real;
    let k: real = 0x100_0000 as real;
    let t: real = tiny();
    let ex: real = exact(x);
    let ef: real = exact(f);
    let eu: real = exact(u);
    let fu: real = ef * eu;
    let y: real = ex * fu;
    let w = f.times(u);
    lemma_wide();
    lemma_norm_product(ef, eu);
    lemma_norm_product(eu, ef);
    lemma_norm_product(ex, fu);
    lemma_norm_product(fu, ex);
    lemma_factor_grows(norm(ef), b, norm(eu));
    lemma_rounded_product(f, u);
    let ew: real = exact(w);
    let off: real = ew - fu;
    assert(norm(ew) <= 0x2_0000_0000_0000_0000 as real);
    lemma_norm_product(ex, ew);
    lemma_norm_product(ew, ex);
    lemma_factor_grows(norm(ex), b, norm(ew));
    lemma_large_enough();
    lemma_rounded_product(x, w);
    // what the first rounding costs
    lemma_spread(ew, fu, ex);
    lemma_norm_product(ex, off);
    lemma_factor_grows(k * norm(off), norm(fu) + k * t, norm(ex));
    lemma_spread(norm(fu), k * t, norm(ex));
    assert(norm(ex) * (k * norm(off)) == k * (norm(ex) * norm(off))) by (nonlinear_arith);
    assert((k * t) * norm(ex) == k * (t * norm(ex))) by (nonlinear_arith);
    lemma_spread(1 as real, norm(ex), t);
    assert(t * 1 as real == t) by (nonlinear_arith);
    lemma_nonneg_product(t, norm(ex));
    assert(k * norm(ex * ew - y) <= norm(y) + k * (t * norm(ex)));
}

/// Products of three numbers up to `2^32` do not become infinite.
proof fn lemma_large_enough()
    ensures
        0x1_0000_0000 as real * 0x2_0000_0000_0000_0000 as real <= large(),
{
    reveal(large);
    vstd::arithmetic::power2::lemma2_to64();
    vstd::arithmetic::power2::lemma2_to64_rest();
    crate::arith::lemma_pow2_sum(32, 64);
    crate::arith::lemma_pow2_sum(1, 96);
    crate::arith::lemma_pow2_monotone(97, 127);
    crate::accuracy::lemma_real_product(0x1_0000_0000, 0x2_0000_0000_0000_0000);
}

/// A sample leaves a compressor times the makeup gain and ten to the power of minus a twentieth of
/// the reduction that the curve asks for at the level of the envelope, which is returned.
pub proof fn law_compressed_sample_follows_the_curve<M: Elementary>(
    m: &M,
    p: spec_fn(real) -> real,
    c: Compressor,
    input: Seq<Single>,
    output: Seq<Single>,
    i: int,
    d: real,
) -> (level: real)
    requires
        is_power_of_ten(p),
        0 as real <= d,
        8 as real * d <= 1 as real,
        powers_follow(m, p, d),
        logarithms_follow(m, p, d),
        c.is_output(m, input, output),
        0 <= i < input.len(),
        c.envelope_after(input.take(i + 1)).finite(),
        c.threshold_db.finite(),
        norm(exact(c.threshold_db)) <= 400 as real,
        c.ratio.finite(),
        exact(c.ratio) >= 1 as real,
        input[i].finite(),
        norm(exact(input[i])) <= 0x1_0000_0000 as real,
        c.makeup.at((i + 1) as nat).finite(),
        norm(exact(c.makeup.at((i + 1) as nat))) <= 0x1_0000_0000 as real,
        // levels that a sample can have
        exact(c.envelope_after(input.take(i + 1))) <= p(5 as real),
    ensures
        ({
            let envelope = exact(c.envelope_after(input.take(i + 1)));
            let reduction = curve(exact(c.threshold_db), exact(c.ratio), level);
            let x = exact(input[i]);
            let y = x * (p(-reduction / 20 as real) * exact(c.makeup.at((i + 1) as nat)));
            &&& envelope <= 0 as real ==> level == -(120 as real)
            &&& envelope > 0 as real ==> norm(p(level / 20 as real) - envelope) <= (d + 400 as real
                / 0x100_0000 as real) * envelope
            &&& output[i].finite()
            &&& norm(exact(output[i]) - y) <= (5 as real * d + 0x1_0000 as real
                / 0x100_0000 as real) * norm(y) + 2 as real * (tiny() * (1 as real + norm(x)))
        }),
{
    let k: real = 0x100_0000 as real;
    let u = c.makeup.at((i + 1) as nat);
    let env = c.envelope_after(input.take(i + 1));
    assert(c.compresses(m, input, i, output[i]));
    let factor = choose|factor: Single|
        #[trigger] c.is_factor(m, env, factor) && output[i] == input[i].times(
            factor.times(c.makeup.at((i + 1) as nat)),
        );
    let level = choose|level: Single|
        #[trigger] is_level(m, env, level) && is_linear(
            m,
            gain_reduction_db(c.threshold_db, c.ratio, level).negated(),
            factor,
        );
    let l: real = exact(level);
    let t: real = exact(c.threshold_db);
    let q: real = exact(c.ratio);
    law_levels_count_twentieths(m, p, env, level, d);
    lemma_level_is_bounded(p, exact(env), l, d + 400 as real / k);
    let red = gain_reduction_db(c.threshold_db, c.ratio, level);
    law_compressor_follows_its_curve(c.threshold_db, c.ratio, level);
    let cv: real = curve(t, q, l);
    lemma_curve_is_bounded(t, q, l);
    lemma_negated_exact(red);
    law_decibels_count_twentieths(m, p, red.negated(), factor, d);
    // the factor
    let right: real = -cv / 20 as real;
    let y: real = exact(red.negated()) / 20 as real - right;
    assert(k * norm(y) <= 10001 as real);
    assert(right + y == exact(red.negated()) / 20 as real);
    assert(p(right + y) == p(right) * p(y));
    let d2: real = 2 as real * d + 100 as real / k;
    lemma_through_answer(exact(factor), p(right + y), p(right), p(y), d2, 30100 as real / k);
    lemma_power_of_nothing(p);
    assert(p(right) <= p(0 as real));
    let f: real = exact(factor);
    let pr: real = p(right);
    let share: real = 2 as real * d2 + 30100 as real / k;
    lemma_factor_grows(share, 1 as real, pr);
    assert(1 as real * pr == pr) by (nonlinear_arith);
    lemma_triple_product(input[i], factor, u);
    lemma_compressed_error(
        exact(output[i]),
        exact(input[i]),
        f,
        pr,
        exact(u),
        share,
        tiny() * (1 as real + norm(exact(input[i]))),
    );
    let z: real = norm(exact(input[i]) * (pr * exact(u)));
    lemma_norm_product(exact(input[i]), pr * exact(u));
    lemma_norm_product(pr * exact(u), exact(input[i]));
    lemma_factor_grows(
        share + 6 as real / k,
        5 as real * d + 0x1_0000 as real / k,
        z,
    );
    l
}

/// The errors of a compressed sample, added up.
proof fn lemma_compressed_error(
    y: real,
    x: real,
    f: real,
    pr: real,
    u: real,
    share: real,
    small: real,
)
    requires
        pr > 0 as real,
        0 as real <= share <= 1 as real,
        norm(f - pr) <= share * pr,
        0x100_0000 as real * norm(y - x * (f * u)) <= 3 as real * norm(x * (f * u))
            + 0x100_0000 as real * (2 as real * small),
    ensures
        norm(y - x * (pr * u)) <= (share + 6 as real / 0x100_0000 as real) * norm(x * (pr * u))
            + 2 as real * small,
{
    let k: real = 0x100_0000 as real;
    let xu: real = x * u;
    let off: real = f - pr;
    assert(x * (f * u) == xu * f && x * (pr * u) == xu * pr) by (nonlinear_arith)
        requires
            xu == x * u,
    ;
    lemma_spread(f, pr, xu);
    lemma_norm_product(xu, off);
    lemma_norm_product(xu, pr);
    let a: real = norm(xu);
    let ap: real = a * pr;
    lemma_factor_grows(norm(off), share * pr, a);
    assert(a * (share * pr) == share * ap) by (nonlinear_arith)
        requires
            ap == a * pr,
    ;
    lemma_nonneg_product(a, pr);
    lemma_factor_grows(share, 1 as real, ap);
    assert(1 as real * ap == ap) by (nonlinear_arith);
    lemma_spread(share, 6 as real / k, ap);
    assert((6 as real / k) * ap == 6 as real * ap / k) by (nonlinear_arith)
        requires
            k == 0x100_0000 as real,
    ;
}

proof fn lemma_power_of_nothing(p: spec_fn(real) -> real)
    requires
        is_power_of_ten(p),
    ensures
        p(0 as real) == 1 as real,
{
    let o: real = p(0 as real);
    assert(p(0 as real + 0 as real) == o * o);
    assert(o == 1 as real) by (nonlinear_arith)
        requires
            o == o * o,
            o > 0 as real,
    ;
}

/// A level stays below what its amplitude allows.
proof fn lemma_level_is_bounded(p: spec_fn(real) -> real, a: real, l: real, share: real)
    requires
        is_power_of_ten(p),
        a <= p(5 as real),
        0 as real <= share <= 1 as real,
        a <= 0 as real ==> l == -(120 as real),
        a > 0 as real ==> norm(p(l / 20 as real) - a) <= share * a,
    ensures
        l <= 120 as real,
{
    if a > 0 as real {
        lemma_factor_grows(share, 1 as real, a);
        assert(1 as real * a == a) by (nonlinear_arith);
        assert(p(l / 20 as real) <= 2 as real * p(5 as real));
        assert(p(5 as real + 1 as real) == p(5 as real) * p(1 as real));
        if l > 120 as real {
            assert(p(6 as real) <= p(l / 20 as real));
        }
    }
}

/// The curve asks for no more than the level exceeds the threshold by.
proof fn lemma_curve_is_bounded(t: real, q: real, l: real)
    requires
        q >= 1 as real,
    ensures
        curve(t, q, l) >= 0 as real,
        l > t ==> curve(t, q, l) <= l - t,
        l <= t ==> curve(t, q, l) == 0 as real,
{
    let i: real = 1 as real / q;
    lemma_quotient(1 as real, q);
    assert(0 as real <= i <= 1 as real) by (nonlinear_arith)
        requires
            i * q == 1 as real,
            q >= 1 as real,
    ;
    if l > t {
        let u: real = l - t;
        lemma_factor_grows(1 as real - i, 1 as real, u);
        lemma_nonneg_product(u, 1 as real - i);
        assert(u * 1 as real == u) by (nonlinear_arith);
    }
}

/// What a compressor makes of a sample is what it would make without makeup gain, times that gain.
pub proof fn law_makeup_multiplies_the_output<M: Elementary>(
    m: &M,
    c: Compressor,
    plain: Compressor,
    input: Seq<Single>,
    output: Seq<Single>,
    without: Seq<Single>,
    i: int,
)
    requires
        steady(m),
        plain == (Compressor { makeup: plain.makeup, makeup_db: plain.makeup_db, ..c }),
        plain.makeup.at((i + 1) as nat) == Single::one(),
        c.is_output(m, input, output),
        plain.is_output(m, input, without),
        0 <= i < input.len(),
        input[i].finite(),
        norm(exact(input[i])) <= 0x1_0000_0000 as real,
        c.makeup.at((i + 1) as nat).finite(),
        norm(exact(c.makeup.at((i + 1) as nat))) <= 0x1_0000_0000 as real,
        forall|f: Single| #[trigger]
            c.is_factor(m, c.envelope_after(input.take(i + 1)), f) ==> f.finite() && norm(exact(f))
                <= 0x1_0000_0000 as real,
    ensures
        ({
            let u = exact(c.makeup.at((i + 1) as nat));
            let y = exact(without[i]) * u;
            0x100_0000 as real * norm(exact(output[i]) - y) <= 5 as real * norm(y)
                + 0x100_0000 as real * (4 as real * (tiny() * (1 as real + norm(exact(input[i]))
                + norm(u))))
        }),
{
    let n: nat = (i + 1) as nat;
    let block = input.take(i + 1);
    let env = c.envelope_after(block);
    lemma_same_envelope(c, plain, block);
    assert(c.compresses(m, input, i, output[i]));
    assert(plain.compresses(m, input, i, without[i]));
    let f = choose|f: Single|
        #[trigger] c.is_factor(m, env, f) && output[i] == input[i].times(
            f.times(c.makeup.at((i + 1) as nat)),
        );
    let g = choose|g: Single|
        #[trigger] plain.is_factor(m, env, g) && without[i] == input[i].times(
            g.times(plain.makeup.at((i + 1) as nat)),
        );
    assert(c.is_factor(m, env, g));
    lemma_factor_is_one(m, c, env, f, g);
    law_one_is_neutral(f);
    let u = c.makeup.at(n);
    let x: real = exact(input[i]);
    let ef: real = exact(f);
    let eu: real = exact(u);
    let b: real = 0x1_0000_0000 as real;
    let k: real = 0x100_0000 as real;
    let t: real = tiny();
    lemma_wide();
    lemma_large_enough();
    lemma_triple_product(input[i], f, u);
    let xf: real = x * ef;
    lemma_norm_product(x, ef);
    lemma_factor_grows(norm(x), b, norm(ef));
    lemma_rounded_product(input[i], f);
    let y2: real = exact(without[i]);
    let off: real = y2 - xf;
    assert(x * (ef * eu) == xf * eu) by (nonlinear_arith)
        requires
            xf == x * ef,
    ;
    lemma_spread(y2, xf, eu);
    lemma_norm_product(off, eu);
    lemma_norm_product(xf, eu);
    lemma_norm_product(eu, off);
    lemma_factor_grows(k * norm(off), norm(xf) + k * t, norm(eu));
    lemma_spread(norm(xf), k * t, norm(eu));
    lemma_group(k, norm(off), norm(eu));
    assert((k * t) * norm(eu) == k * (t * norm(eu))) by (nonlinear_arith);
    let tx: real = t * norm(x);
    let tu: real = t * norm(eu);
    lemma_nonneg_product(t, norm(x));
    lemma_nonneg_product(t, norm(eu));
    assert(t * (1 as real + norm(x)) == t + tx) by (nonlinear_arith)
        requires
            tx == t * norm(x),
    ;
    assert(t * (1 as real + norm(x) + norm(eu)) == t + tx + tu) by (nonlinear_arith)
        requires
            tx == t * norm(x),
            tu == t * norm(eu),
    ;
}

/// Two compressors that differ in their makeup gain only reduce a sample by the same factor, which
/// is returned, and each then applies its own makeup gain: more makeup gain makes every sample
/// louder by as much.
pub proof fn law_makeup_is_apart_from_compression<M: Elementary>(
    m: &M,
    c: Compressor,
    d: Compressor,
    input: Seq<Single>,
    output: Seq<Single>,
    other: Seq<Single>,
    i: int,
) -> (factor: real)
    requires
        steady(m),
        d == (Compressor { makeup: d.makeup, makeup_db: d.makeup_db, ..c }),
        c.is_output(m, input, output),
        d.is_output(m, input, other),
        0 <= i < input.len(),
        input[i].finite(),
        norm(exact(input[i])) <= 0x1_0000_0000 as real,
        c.makeup.at((i + 1) as nat).finite(),
        norm(exact(c.makeup.at((i + 1) as nat))) <= 0x1_0000_0000 as real,
        d.makeup.at((i + 1) as nat).finite(),
        norm(exact(d.makeup.at((i + 1) as nat))) <= 0x1_0000_0000 as real,
        forall|f: Single| #[trigger]
            c.is_factor(m, c.envelope_after(input.take(i + 1)), f) ==> f.finite() && norm(exact(f))
                <= 0x1_0000_0000 as real,
    ensures
        ({
            let x = exact(input[i]);
            let y = x * (factor * exact(c.makeup.at((i + 1) as nat)));
            let z = x * (factor * exact(d.makeup.at((i + 1) as nat)));
            let small = 0x100_0000 as real * (2 as real * (tiny() * (1 as real + norm(x))));
            &&& 0x100_0000 as real * norm(exact(output[i]) - y) <= 3 as real * norm(y) + small
            &&& 0x100_0000 as real * norm(exact(other[i]) - z) <= 3 as real * norm(z) + small
        }),
{
    let block = input.take(i + 1);
    let env = c.envelope_after(block);
    lemma_same_envelope(c, d, block);
    assert(c.compresses(m, input, i, output[i]));
    assert(d.compresses(m, input, i, other[i]));
    let f = choose|f: Single|
        #[trigger] c.is_factor(m, env, f) && output[i] == input[i].times(
            f.times(c.makeup.at((i + 1) as nat)),
        );
    let g = choose|g: Single|
        #[trigger] d.is_factor(m, env, g) && other[i] == input[i].times(
            g.times(d.makeup.at((i + 1) as nat)),
        );
    assert(c.is_factor(m, env, g));
    lemma_factor_is_one(m, c, env, f, g);
    lemma_triple_product(input[i], f, c.makeup.at((i + 1) as nat));
    lemma_triple_product(input[i], f, d.makeup.at((i + 1) as nat));
    exact(f)
}

/// The envelope does not depend on the makeup gain.
proof fn lemma_same_envelope(c: Compressor, plain: Compressor, input: Seq<Single>)
    requires
        plain == (Compressor { makeup: plain.makeup, makeup_db: plain.makeup_db, ..c }),
    ensures
        plain.envelope_after(input) == c.envelope_after(input),
    decreases input.len(),
{
    if input.len() > 0 {
        lemma_same_envelope(c, plain, input.drop_last());
    }
}

/// The makeup gain of a compressor that was prepared, or whose makeup gain has settled, is ten to
/// the power of a twentieth of what is set: it stays at its target but for rounding, and its
/// target is that power.
pub proof fn law_settled_makeup_is_as_set<M: Elementary>(
    m: &M,
    p: spec_fn(real) -> real,
    c: Compressor,
    sample_rate: Single,
    n: nat,
    d: real,
)
    requires
        is_power_of_ten(p),
        0 as real <= d <= 1 as real,
        powers_follow(m, p, d),
        c.tuned(m, sample_rate),
        c.makeup.current == c.makeup.target,
        followed(c.makeup.coeff, c.makeup.target, c.makeup.target),
        usable_level(c.makeup_db),
    ensures
        right_amplitude(p, c.makeup_db, c.makeup.target, d),
        (0x100_0000 as real * (1 as real - exact(c.makeup.coeff))) * norm(
            exact(c.makeup.at(n)) - exact(c.makeup.target),
        ) <= slack(c.makeup.target, c.makeup.target),
{
    law_decibels_count_twentieths(m, p, c.makeup_db, c.makeup.target, d);
    law_snapped_value_stays(c.makeup, n);
}

/// The coefficients of a compressor are those of its own attack and release times, and of ten
/// milliseconds for the makeup gain.
pub proof fn law_compressor_times_are_as_set<M: Elementary>(
    m: &M,
    e: spec_fn(real) -> real,
    c: Compressor,
    sample_rate: Single,
    d: real,
)
    requires
        is_exponential(e),
        0 as real <= d <= 1 as real,
        exponentials_follow(m, e, d),
        c.tuned(m, sample_rate),
    ensures
        usable_time(c.attack_ms, sample_rate) ==> right_coefficient(
            e,
            c.attack_ms,
            sample_rate,
            c.attack_coeff,
            d,
        ),
        usable_time(c.release_ms, sample_rate) ==> right_coefficient(
            e,
            c.release_ms,
            sample_rate,
            c.release_coeff,
            d,
        ),
        usable_time(Single::from_bits(TEN), sample_rate) ==> right_coefficient(
            e,
            Single::from_bits(TEN),
            sample_rate,
            c.makeup.coeff,
            d,
        ),
{
    if usable_time(c.attack_ms, sample_rate) {
        law_coefficient_is_exponential(m, e, c.attack_ms, sample_rate, c.attack_coeff, d);
    }
    if usable_time(c.release_ms, sample_rate) {
        law_coefficient_is_exponential(m, e, c.release_ms, sample_rate, c.release_coeff, d);
    }
    let ten = Single::from_bits(TEN);
    if usable_time(ten, sample_rate) {
        law_coefficient_is_exponential(m, e, ten, sample_rate, c.makeup.coeff, d);
    }
}

/// The envelope of a compressor follows the amounts of the samples: with the attack time while they
/// are larger, with the release time while they are not.
pub proof fn law_compressor_envelope_follows(c: Compressor, input: Seq<Single>, i: int, b: real)
    requires
        0 <= i < input.len(),
        input[i].finite(),
        c.envelope_after(input.take(i)).finite(),
        c.attack_coeff.bits <= Single::one().bits,
        c.release_coeff.bits <= Single::one().bits,
        norm(exact(input[i])) <= b,
        norm(exact(c.envelope_after(input.take(i)))) <= b,
        4 as real * b + 4 as real <= large(),
    ensures
        ({
            let x = norm(exact(input[i]));
            let before = exact(c.envelope_after(input.take(i)));
            let after = exact(c.envelope_after(input.take(i + 1)));
            let s = if x > before {
                exact(c.attack_coeff)
            } else {
                exact(c.release_coeff)
            };
            &&& c.envelope_after(input.take(i + 1)).finite()
            &&& 0x100_0000 as real * norm(after - (s * before + (1 as real - s) * x)) <= 4 as real * b
                + 0x400_0000 as real * tiny()
        }),
{
    let block = input.take(i + 1);
    assert(block.drop_last() =~= input.take(i));
    let x = input[i].abs();
    let before = c.envelope_after(input.take(i));
    lemma_amount(input[i]);
    lemma_exact_at_most(x, before);
    lemma_smooth_error(c.attack_coeff, before, x, b);
    lemma_smooth_error(c.release_coeff, before, x, b);
}

/// The envelope of a noise gate follows the amounts of the samples: quickly while they are larger,
/// slowly while they are not.
pub proof fn law_gate_envelope_follows(g: Gate, x: Single, b: real)
    requires
        x.finite(),
        g.envelope.finite(),
        g.env_attack_coeff.bits <= Single::one().bits,
        g.env_release_coeff.bits <= Single::one().bits,
        norm(exact(x)) <= b,
        norm(exact(g.envelope)) <= b,
        4 as real * b + 4 as real <= large(),
    ensures
        ({
            let a = norm(exact(x));
            let before = exact(g.envelope);
            let s = if a > before {
                exact(g.env_attack_coeff)
            } else {
                exact(g.env_release_coeff)
            };
            let after = g.after(seq![x]).envelope;
            &&& after.finite()
            &&& 0x100_0000 as real * norm(exact(after) - (s * before + (1 as real - s) * a))
                <= 4 as real * b + 0x400_0000 as real * tiny()
        }),
{
    lemma_one_sample(g, x);
    lemma_amount(x);
    lemma_exact_at_most(x.abs(), g.envelope);
    lemma_smooth_error(g.env_attack_coeff, g.envelope, x.abs(), b);
    lemma_smooth_error(g.env_release_coeff, g.envelope, x.abs(), b);
}

/// One sample.
proof fn lemma_one_sample(g: Gate, x: Single)
    ensures
        g.after(seq![x]) == g.stepped(x),
        g.output(seq![x]).len() == 1,
        g.output(seq![x])[0] == x.times(g.stepped(x).gain),
{
    let one = seq![x];
    reveal_with_fuel(Gate::after, 2);
    assert(one.drop_last() =~= Seq::<Single>::empty());
    assert(one.take(1) =~= one);
}

/// A noise gate opens, with its attack time, while the envelope is at the threshold or above, and
/// for the hold time from then on; otherwise it closes, with its release time. What comes out is
/// the sample times the gain.
pub proof fn law_gate_opens_and_closes(g: Gate, x: Single)
    requires
        gate_sound(g),
        x.finite(),
        norm(exact(x)) <= 0x1_0000_0000 as real,
        g.threshold_linear.finite(),
        g.after(seq![x]).envelope.finite(),
    ensures
        ({
            let later = g.after(seq![x]);
            let loud = exact(later.envelope) >= exact(g.threshold_linear);
            let before = exact(g.gain);
            let after = exact(later.gain);
            let up = exact(g.gain_attack_coeff);
            let down = exact(g.gain_release_coeff);
            let k = 0x100_0000 as real;
            let y = g.output(seq![x])[0];
            &&& loud ==> later.hold_counter == g.hold_samples
            &&& !loud ==> later.hold_counter == if g.hold_counter > 0 {
                g.hold_counter - 1
            } else {
                0
            }
            &&& loud || g.hold_counter > 0 ==> k * norm(after - (up * before + (1 as real - up)))
                <= 4 as real + 0x400_0000 as real * tiny()
            &&& !loud && g.hold_counter == 0 ==> k * norm(after - down * before) <= 4 as real
                + 0x400_0000 as real * tiny()
            &&& y.finite()
            &&& k * norm(exact(y) - exact(x) * after) <= norm(exact(x) * after) + k * tiny()
        }),
{
    let zero = Single::zero();
    let one = Single::one();
    lemma_limits();
    lemma_wide();
    lemma_one_sample(g, x);
    let later = g.after(seq![x]);
    lemma_exact_at_most(later.envelope, g.threshold_linear);
    lemma_exact_zero();
    lemma_share(g.gain);
    lemma_share(g.gain_attack_coeff);
    lemma_share(g.gain_release_coeff);
    lemma_share(one);
    lemma_exact_at_most(one, g.gain);
    lemma_exact_at_most(zero, g.gain);
    lemma_smooth_error(g.gain_attack_coeff, g.gain, one, 1 as real);
    lemma_smooth_error(g.gain_release_coeff, g.gain, one, 1 as real);
    lemma_smooth_error(g.gain_release_coeff, g.gain, zero, 1 as real);
    let up: real = exact(g.gain_attack_coeff);
    let down: real = exact(g.gain_release_coeff);
    assert((1 as real - up) * 1 as real == 1 as real - up) by (nonlinear_arith);
    assert((1 as real - down) * 1 as real == 1 as real - down) by (nonlinear_arith);
    assert((1 as real - down) * 0 as real == 0 as real) by (nonlinear_arith);
    assert(up * 1 as real == up && down * 1 as real == down) by (nonlinear_arith);
    // the sample
    crate::dsp::laws_stages::law_gate_gain_in_range(g, seq![x]);
    lemma_share(later.gain);
    let ex: real = exact(x);
    let eg: real = exact(later.gain);
    lemma_norm_product(ex, eg);
    lemma_factor_grows(norm(eg), 1 as real, norm(ex));
    assert(norm(ex) * 1 as real == norm(ex)) by (nonlinear_arith);
    lemma_rounded_product(x, later.gain);
}

/// What a prepared noise gate goes by is what is set: the threshold as an amplitude, and the attack
/// and release times; its envelope rises within half a millisecond and falls within twenty.
pub proof fn law_gate_goes_by_its_settings<M: Elementary>(
    m: &M,
    p: spec_fn(real) -> real,
    e: spec_fn(real) -> real,
    g: Gate,
    sample_rate: Single,
    d: real,
)
    requires
        is_power_of_ten(p),
        is_exponential(e),
        0 as real <= d <= 1 as real,
        powers_follow(m, p, d),
        exponentials_follow(m, e, d),
        g.tuned(m, sample_rate),
    ensures
        usable_level(g.threshold_db) ==> right_amplitude(p, g.threshold_db, g.threshold_linear, d),
        usable_time(g.attack_ms, sample_rate) ==> right_coefficient(
            e,
            g.attack_ms,
            sample_rate,
            g.gain_attack_coeff,
            d,
        ),
        usable_time(g.release_ms, sample_rate) ==> right_coefficient(
            e,
            g.release_ms,
            sample_rate,
            g.gain_release_coeff,
            d,
        ),
        usable_time(Single::from_bits(HALF), sample_rate) ==> right_coefficient(
            e,
            Single::from_bits(HALF),
            sample_rate,
            g.env_attack_coeff,
            d,
        ),
        usable_time(Single::from_bits(TWENTY), sample_rate) ==> right_coefficient(
            e,
            Single::from_bits(TWENTY),
            sample_rate,
            g.env_release_coeff,
            d,
        ),
{
    let half = Single::from_bits(HALF);
    let twenty = Single::from_bits(TWENTY);
    if usable_level(g.threshold_db) {
        law_decibels_count_twentieths(m, p, g.threshold_db, g.threshold_linear, d);
    }
    if usable_time(g.attack_ms, sample_rate) {
        law_coefficient_is_exponential(m, e, g.attack_ms, sample_rate, g.gain_attack_coeff, d);
    }
    if usable_time(g.release_ms, sample_rate) {
        law_coefficient_is_exponential(m, e, g.release_ms, sample_rate, g.gain_release_coeff, d);
    }
    if usable_time(half, sample_rate) {
        law_coefficient_is_exponential(m, e, half, sample_rate, g.env_attack_coeff, d);
    }
    if usable_time(twenty, sample_rate) {
        law_coefficient_is_exponential(m, e, twenty, sample_rate, g.env_release_coeff, d);
    }
}

/// What a prepared limiter goes by is what is set: the ceiling as an amplitude, at which it stands,
/// and the release time; a ceiling is smoothed within ten milliseconds.
pub proof fn law_limiter_goes_by_its_settings<M: Elementary>(
    m: &M,
    p: spec_fn(real) -> real,
    e: spec_fn(real) -> real,
    l: Limiter,
    sample_rate: Single,
    d: real,
)
    requires
        is_power_of_ten(p),
        is_exponential(e),
        0 as real <= d <= 1 as real,
        powers_follow(m, p, d),
        exponentials_follow(m, e, d),
        l.tuned(m, sample_rate),
    ensures
        usable_level(l.ceiling_db) ==> right_amplitude(p, l.ceiling_db, l.ceiling.target, d),
        l.ceiling.current == l.ceiling.target,
        usable_time(l.release_ms, sample_rate) ==> right_coefficient(
            e,
            l.release_ms,
            sample_rate,
            l.release_coeff,
            d,
        ),
        usable_time(Single::from_bits(TEN), sample_rate) ==> right_coefficient(
            e,
            Single::from_bits(TEN),
            sample_rate,
            l.ceiling.coeff,
            d,
        ),
{
    if usable_level(l.ceiling_db) {
        law_decibels_count_twentieths(m, p, l.ceiling_db, l.ceiling.target, d);
    }
    if usable_time(l.release_ms, sample_rate) {
        law_coefficient_is_exponential(m, e, l.release_ms, sample_rate, l.release_coeff, d);
    }
    let ten = Single::from_bits(TEN);
    if usable_time(ten, sample_rate) {
        law_coefficient_is_exponential(m, e, ten, sample_rate, l.ceiling.coeff, d);
    }
}

} // verus!
