//! What the limiter promises.
use vstd::arithmetic::power2::pow2;
use vstd::prelude::*;

use super::chain::VoiceChain;
use super::laws_dynamics::lemma_amount;
use super::laws_eq::lemma_wide;
use super::laws_levels::{
    lemma_exact_at_most, lemma_nonneg_product, lemma_rounded_product, lemma_rounded_quotient,
};
use super::laws_ramp::lemma_smooth_error;
use super::level::{smooth, Elementary};
use super::limiter::{next_gain, target_gain, Limiter};
use crate::accuracy::{
    exact, lemma_exact_order, lemma_factor_grows, lemma_group, lemma_limits, lemma_norm_product,
    lemma_quotient, lemma_share, lemma_spread, norm, tiny,
};
use crate::numeric::{
    hardly_drifted, law_one_is_neutral, lemma_drift_step, lemma_hardly_above, lemma_limited,
    lemma_over_larger, lemma_size_one, lemma_size_order, lemma_smooth_at_one, lemma_smooth_lift,
    lemma_smooth_monotone, lemma_times_abs, lemma_times_shrinks, nonneg, size,
};
use crate::single::Single;

verus! {

/// Every sample is a finite number.
pub open spec fn all_finite(input: Seq<Single>) -> bool {
    forall|i: int| 0 <= i < input.len() ==> (#[trigger] input[i]).finite()
}

impl Limiter {
    /// The gain and the release coefficient lie between zero and one, and every ceiling in force
    /// within the next `n` samples is finite and not negative.
    pub open spec fn sound(self, n: nat) -> bool {
        &&& self.gain.bits <= Single::one().bits
        &&& self.release_coeff.bits <= Single::one().bits
        &&& forall|i: int| 0 <= i < n ==> nonneg(#[trigger] self.ceiling_at(i))
    }
}

proof fn lemma_target_gain(ceiling: Single, x: Single)
    requires
        nonneg(ceiling),
        x.finite(),
    ensures
        target_gain(ceiling, x).bits <= Single::one().bits,
{
    lemma_size_order(x.abs(), ceiling);
    if x.abs().gt(ceiling) {
        lemma_over_larger(ceiling, x.abs());
    }
}

/// The gain of a limiter stays between zero and one.
pub proof fn law_limiter_gain_in_range(l: Limiter, input: Seq<Single>)
    requires
        l.sound(input.len()),
        all_finite(input),
    ensures
        l.gain_after(input).bits <= Single::one().bits,
    decreases input.len(),
{
    if input.len() > 0 {
        let rest = input.drop_last();
        law_limiter_gain_in_range(l, rest);
        let g = l.gain_after(rest);
        let c = l.ceiling_at(input.len() - 1);
        let t = target_gain(c, input.last());
        lemma_target_gain(c, input.last());
        lemma_size_one();
        lemma_size_order(t, g);
        lemma_smooth_monotone(l.release_coeff, g, t, g, t);
    }
}

/// A limiter never makes a sample larger, and keeps its sign; hence a sample that does not exceed
/// the ceiling in force comes out no larger than that ceiling.
pub proof fn law_limiter_never_amplifies(l: Limiter, input: Seq<Single>, i: int)
    requires
        l.sound(input.len()),
        all_finite(input),
        0 <= i < input.len(),
    ensures
        l.output(input)[i].finite(),
        l.output(input)[i].abs().bits <= input[i].abs().bits,
        l.output(input)[i].word().neg == input[i].word().neg,
{
    let block = input.take(i + 1);
    assert forall|j: int| 0 <= j < block.len() implies (#[trigger] block[j]).finite() by {
        assert(block[j] == input[j]);
    }
    law_limiter_gain_in_range(l, block);
    let g = l.gain_after(block);
    lemma_size_one();
    lemma_times_abs(input[i], g);
    lemma_times_shrinks(input[i].abs(), g);
    assert(input[i].times(g).word().neg == input[i].word().neg) by {
        reveal(crate::float::multiplied);
    }
}

/// A sample that exceeds the ceiling in force comes down to it: what comes out exceeds the
/// ceiling by no more than rounding does, one part in `2^21`, `2^-147` of the sample, and half
/// the smallest positive number.
pub proof fn law_limiter_keeps_ceiling(l: Limiter, input: Seq<Single>, i: int)
    requires
        l.sound(input.len()),
        all_finite(input),
        0 <= i < input.len(),
    ensures
        ({
            let x = input[i].abs();
            let y = l.output(input)[i].abs();
            let c = l.ceiling_at(i);
            &&& x.le(c) ==> y.le(c)
            &&& 0x20_0000 * (size(y) * pow2(149)) <= 0x20_0001 * (size(c) * pow2(149)) + 0x80_0000
                * size(x) + 0x10_0000 * pow2(149)
        }),
{
    reveal(crate::float::at_most);
    law_limiter_never_amplifies(l, input, i);
    let block = input.take(i + 1);
    let rest = block.drop_last();
    assert forall|j: int| 0 <= j < block.len() implies (#[trigger] block[j]).finite() by {
        assert(block[j] == input[j]);
    }
    assert forall|j: int| 0 <= j < rest.len() implies (#[trigger] rest[j]).finite() by {
        assert(rest[j] == input[j]);
    }
    law_limiter_gain_in_range(l, block);
    law_limiter_gain_in_range(l, rest);
    lemma_size_one();
    let x = input[i].abs();
    let y = l.output(input)[i].abs();
    let c = l.ceiling_at(i);
    let g = l.gain_after(rest);
    let t = target_gain(c, input[i]);
    let next = l.gain_after(block);
    assert(block.last() == input[i]);
    assert(next == next_gain(l.release_coeff, g, t));
    lemma_size_order(x, c);
    lemma_size_order(y, x);
    lemma_size_order(y, c);
    lemma_times_abs(input[i], next);
    lemma_target_gain(c, input[i]);
    if x.gt(c) {
        lemma_size_order(t, g);
        if t.lt(g) {
            lemma_hardly_above(next, t, t);
        } else {
            lemma_smooth_monotone(l.release_coeff, g, t, t, t);
            lemma_smooth_lift(l.release_coeff, t);
            lemma_hardly_above(next, smooth(l.release_coeff, t, t), t);
        }
        lemma_limited(c, x, next);
    } else {
        assert(size(y) * pow2(149) <= size(c) * pow2(149)) by (nonlinear_arith)
            requires
                size(y) <= size(c),
        ;
    }
}

/// A limiter at full gain passes a block unchanged, and stays at full gain, as long as no sample
/// exceeds the ceiling in force.
pub proof fn law_limiter_passes_quiet(l: Limiter, input: Seq<Single>)
    requires
        l.gain == Single::one(),
        l.release_coeff.bits <= Single::one().bits,
        forall|i: int| 0 <= i < input.len() ==> (#[trigger] input[i]).abs().le(l.ceiling_at(i)),
    ensures
        l.output(input) == input,
        l.gain_after(input) == Single::one(),
{
    assert forall|i: int| 0 <= i < input.len() implies l.output(input)[i] == input[i] by {
        let block = input.take(i + 1);
        assert forall|j: int| 0 <= j < block.len() implies (#[trigger] block[j]).abs().le(
            l.ceiling_at(j),
        ) by {
            assert(block[j] == input[j]);
        }
        lemma_full_gain_stays(l, block);
        assert(input[i].abs().le(l.ceiling_at(i)));
        assert(!input[i].nan()) by {
            reveal(crate::float::at_most);
        }
        law_one_is_neutral(input[i]);
    }
    assert(l.output(input) =~= input);
    lemma_full_gain_stays(l, input);
}

proof fn lemma_full_gain_stays(l: Limiter, input: Seq<Single>)
    requires
        l.gain == Single::one(),
        l.release_coeff.bits <= Single::one().bits,
        forall|i: int| 0 <= i < input.len() ==> (#[trigger] input[i]).abs().le(l.ceiling_at(i)),
    ensures
        l.gain_after(input) == Single::one(),
    decreases input.len(),
{
    if input.len() > 0 {
        let rest = input.drop_last();
        assert forall|j: int| 0 <= j < rest.len() implies (#[trigger] rest[j]).abs().le(
            l.ceiling_at(j),
        ) by {
            assert(rest[j] == input[j]);
        }
        lemma_full_gain_stays(l, rest);
        let c = l.ceiling_at(input.len() - 1);
        assert(input.last().abs().le(c));
        assert(target_gain(c, input.last()) == Single::one()) by {
            reveal(crate::float::less);
            reveal(crate::float::at_most);
        }
        lemma_size_one();
        lemma_size_order(Single::one(), Single::one());
        lemma_smooth_at_one(l.release_coeff);
    }
}

/// The gain of a limiter falls at once, and only as far as a sample needs; otherwise it goes
/// gradually up to what the sample allows, and does not fall but for rounding.
pub proof fn law_limiter_recovers_gradually(l: Limiter, input: Seq<Single>, i: int)
    requires
        l.sound(input.len()),
        all_finite(input),
        0 <= i < input.len(),
    ensures
        ({
            let gain = l.gain_after(input.take(i));
            let next = l.gain_after(input.take(i + 1));
            let need = target_gain(l.ceiling_at(i), input[i]);
            let c = exact(l.release_coeff);
            let k = 0x100_0000 as real;
            &&& need.lt(gain) ==> next == need
            &&& !need.lt(gain) ==> k * norm(
                exact(next) - (c * exact(gain) + (1 as real - c) * exact(need)),
            ) <= 4 as real + 0x400_0000 as real * tiny()
            &&& !need.lt(gain) ==> k * exact(next) >= (k - 4 as real) * exact(gain)
                - 0x400_0000 as real * tiny()
        }),
{
    let block = input.take(i + 1);
    let rest = input.take(i);
    assert(block.drop_last() =~= rest);
    assert(block.last() == input[i]);
    assert forall|j: int| 0 <= j < rest.len() implies (#[trigger] rest[j]).finite() by {
        assert(rest[j] == input[j]);
    }
    law_limiter_gain_in_range(l, rest);
    let g = l.gain_after(rest);
    let c = l.release_coeff;
    let t = target_gain(l.ceiling_at(i), input[i]);
    let next = l.gain_after(block);
    assert(next == next_gain(c, g, t));
    lemma_size_one();
    lemma_target_gain(l.ceiling_at(i), input[i]);
    lemma_size_order(t, g);
    if !t.lt(g) {
        lemma_limits();
        lemma_share(c);
        lemma_share(g);
        lemma_share(t);
        lemma_smooth_error(c, g, t, 1 as real);
        // no lower than a step that stays
        let stay = smooth(c, g, g);
        lemma_smooth_monotone(c, g, g, g, t);
        lemma_exact_order(stay, next);
        let eg: real = exact(g);
        let ec: real = exact(c);
        lemma_smooth_error(c, g, g, eg);
        assert(ec * eg + (1 as real - ec) * eg == eg) by (nonlinear_arith);
        assert((0x100_0000 as real - 4 as real) * eg == 0x100_0000 as real * eg - 4 as real * eg)
            by (nonlinear_arith);
    }
}

/// A ceiling that stands and goes within zero and one stays there, whatever is smoothed.
pub proof fn law_ceiling_stays_in_range(l: Limiter, n: nat)
    requires
        l.ceiling.current.bits <= Single::one().bits,
        l.ceiling.target.bits <= Single::one().bits,
        l.ceiling.coeff.bits <= Single::one().bits,
    ensures
        l.ceiling.at(n).bits <= Single::one().bits,
    decreases n,
{
    if n > 0 {
        law_ceiling_stays_in_range(l, (n - 1) as nat);
        let now = l.ceiling.at((n - 1) as nat);
        lemma_smooth_monotone(l.ceiling.coeff, now, l.ceiling.target, now, l.ceiling.target);
    }
}

/// A limiter whose gain, coefficients and ceiling lie within zero and one, as they do once it was
/// prepared for a ceiling of at most full scale, is sound for any number of samples.
pub proof fn law_prepared_limiter_is_sound(l: Limiter, n: nat)
    requires
        l.gain.bits <= Single::one().bits,
        l.release_coeff.bits <= Single::one().bits,
        l.ceiling.current.bits <= Single::one().bits,
        l.ceiling.target.bits <= Single::one().bits,
        l.ceiling.coeff.bits <= Single::one().bits,
    ensures
        l.sound(n),
{
    assert forall|i: int| 0 <= i < n implies nonneg(#[trigger] l.ceiling_at(i)) by {
        law_ceiling_stays_in_range(l, (i + 1) as nat);
        lemma_size_one();
    }
}

/// A ceiling that stands at its setting hardly rises above it, however long it is smoothed: by
/// eight parts in `2^24` and four times the smallest positive number, both over one minus the
/// smoothing coefficient.
pub proof fn law_ceiling_hardly_drifts(l: Limiter, n: nat)
    requires
        l.ceiling.current == l.ceiling.target,
        l.ceiling.target.bits <= Single::one().bits,
        l.ceiling.coeff.bits <= Single::one().bits,
        0x100_0000 * (pow2(149) - size(l.ceiling.coeff)) >= 8 * pow2(149),
    ensures
        hardly_drifted(l.ceiling.coeff, l.ceiling.at(n), l.ceiling.target),
    decreases n,
{
    if n == 0 {
        let g: int = 0x100_0000 * (pow2(149) - size(l.ceiling.coeff));
        assert(0 * g == 0) by (nonlinear_arith);
    } else {
        law_ceiling_hardly_drifts(l, (n - 1) as nat);
        law_ceiling_stays_in_range(l, (n - 1) as nat);
        lemma_drift_step(l.ceiling.coeff, l.ceiling.at((n - 1) as nat), l.ceiling.target);
    }
}

/// A limiter that was prepared for a ceiling of at most full scale keeps to it from the first sample
/// on, however many come: the ceiling in force at any of them hardly exceeds the one that was set,
/// and what comes out hardly exceeds the ceiling in force.
pub proof fn law_prepared_limiter_keeps_its_setting(l: Limiter, input: Seq<Single>, i: int)
    requires
        l.ceiling.current == l.ceiling.target,
        l.ceiling.target.bits <= Single::one().bits,
        l.ceiling.coeff.bits <= Single::one().bits,
        0x100_0000 * (pow2(149) - size(l.ceiling.coeff)) >= 8 * pow2(149),
        l.gain.bits <= Single::one().bits,
        l.release_coeff.bits <= Single::one().bits,
        all_finite(input),
        0 <= i < input.len(),
    ensures
        ({
            let x = input[i].abs();
            let y = l.output(input)[i].abs();
            let c = l.ceiling_at(i);
            &&& hardly_drifted(l.ceiling.coeff, c, l.ceiling.target)
            &&& y.bits <= x.bits
            &&& 0x20_0000 * (size(y) * pow2(149)) <= 0x20_0001 * (size(c) * pow2(149)) + 0x80_0000
                * size(x) + 0x10_0000 * pow2(149)
        }),
{
    law_prepared_limiter_is_sound(l, input.len());
    law_ceiling_hardly_drifts(l, (i + 1) as nat);
    law_limiter_never_amplifies(l, input, i);
    law_limiter_keeps_ceiling(l, input, i);
}

/// A chain whose limiter is on keeps to the limiter's ceiling, whatever the other stages do.
pub proof fn law_chain_keeps_ceiling<M: Elementary>(
    m: &M,
    c: VoiceChain,
    input: Seq<Single>,
    squeezed: Seq<Single>,
    i: int,
)
    requires
        c.limiter_enabled,
        c.is_after_compressor(m, input, squeezed),
        c.limiter.sound(squeezed.len()),
        all_finite(squeezed),
        0 <= i < squeezed.len(),
    ensures
        ({
            let x = squeezed[i].abs();
            let y = c.after_limiter(squeezed)[i].abs();
            let ceiling = c.limiter.ceiling_at(i);
            &&& y.bits <= x.bits
            &&& 0x20_0000 * (size(y) * pow2(149)) <= 0x20_0001 * (size(ceiling) * pow2(149))
                + 0x80_0000 * size(x) + 0x10_0000 * pow2(149)
        }),
{
    law_limiter_never_amplifies(c.limiter, squeezed, i);
    law_limiter_keeps_ceiling(c.limiter, squeezed, i);
}

/// A sample that would exceed the ceiling with the gain in force comes out at the ceiling, neither
/// above nor below, up to rounding; one that would not exceed it does not bring the gain down.
pub proof fn law_limiter_reduces_no_more_than_needed(l: Limiter, input: Seq<Single>, i: int)
    requires
        l.sound(input.len()),
        all_finite(input),
        0 <= i < input.len(),
        norm(exact(input[i])) <= 0x1_0000_0000 as real,
        exact(l.ceiling_at(i)) <= 0x1_0000_0000 as real,
    ensures
        ({
            let x = norm(exact(input[i]));
            let y = norm(exact(l.output(input)[i]));
            let c = exact(l.ceiling_at(i));
            let gain = exact(l.gain_after(input.take(i)));
            let next = exact(l.gain_after(input.take(i + 1)));
            let k = 0x100_0000 as real;
            &&& k * (gain * x - c) > c + k * (tiny() * x) ==> k * norm(y - c) <= 3 as real * c + k * (
            2 as real * (tiny() * (1 as real + x)))
            &&& k * (c - gain * x) > c + k * (tiny() * x) ==> k * next >= (k - 4 as real) * gain
                - 0x400_0000 as real * tiny()
        }),
{
    let rest = input.take(i);
    let block = input.take(i + 1);
    assert(block.drop_last() =~= rest);
    assert(block.last() == input[i]);
    assert forall|j: int| 0 <= j < rest.len() implies (#[trigger] rest[j]).finite() by {
        assert(rest[j] == input[j]);
    }
    assert forall|j: int| 0 <= j < block.len() implies (#[trigger] block[j]).finite() by {
        assert(block[j] == input[j]);
    }
    law_limiter_gain_in_range(l, rest);
    law_limiter_gain_in_range(l, block);
    law_limiter_recovers_gradually(l, input, i);
    law_limiter_never_amplifies(l, input, i);
    let a = input[i].abs();
    let cs = l.ceiling_at(i);
    let g = l.gain_after(rest);
    let need = target_gain(cs, input[i]);
    let k: real = 0x100_0000 as real;
    let t: real = tiny();
    lemma_limits();
    lemma_wide();
    lemma_amount(input[i]);
    lemma_share(g);
    lemma_share(Single::one());
    let x: real = exact(a);
    let c: real = exact(cs);
    let eg: real = exact(g);
    let gx: real = eg * x;
    lemma_size_order(cs, cs);
    lemma_exact_order(cs, cs);
    lemma_exact_at_most(a, cs);
    lemma_factor_grows(eg, 1 as real, x);
    assert(1 as real * x == x) by (nonlinear_arith);
    lemma_nonneg_product(t, x);
    assert(k * (gx - c) == k * gx - k * c && k * (c - gx) == k * c - k * gx) by (nonlinear_arith);
    if x > c {
        let q: real = c / x;
        lemma_quotient(c, x);
        assert(0 as real <= q <= 1 as real) by (nonlinear_arith)
            requires
                q * x == c,
                0 as real <= c <= x,
                x > 0 as real,
        ;
        lemma_rounded_quotient(cs, a);
        let n: real = exact(need);
        // the gain that is needed, times the sample
        let nx: real = n * x;
        let off: real = n - q;
        lemma_spread(n, q, x);
        lemma_norm_product(off, x);
        lemma_factor_grows(k * norm(off), q + k * t, x);
        lemma_spread(q, k * t, x);
        lemma_group(k, norm(off), x);
        assert((k * t) * x == k * (t * x)) by (nonlinear_arith);
        assert(k * norm(nx - c) <= c + k * (t * x));
        lemma_target_gain(cs, input[i]);
        lemma_exact_at_most(need, g);
        if k * (gx - c) > c + k * (t * x) {
            assert(n < eg) by (nonlinear_arith)
                requires
                    n * x < eg * x,
                    x > 0 as real,
            ;
            let y = l.output(input)[i];
            assert(y == input[i].times(need));
            let ex: real = exact(input[i]);
            lemma_norm_product(ex, n);
            lemma_share(need);
            assert(norm(ex) * norm(n) == nx) by (nonlinear_arith)
                requires
                    norm(ex) == x,
                    norm(n) == n,
                    nx == n * x,
            ;
            lemma_factor_grows(n, 1 as real, x);
            lemma_rounded_product(input[i], need);
            lemma_spread(1 as real, x, t);
            assert(t * 1 as real == t) by (nonlinear_arith);
        }
        if k * (c - gx) > c + k * (t * x) {
            assert(n > eg) by (nonlinear_arith)
                requires
                    n * x > eg * x,
                    x > 0 as real,
            ;
        }
    } else {
        lemma_exact_at_most(need, g);
    }
}

} // verus!
