//! What the other stages promise.
use vstd::arithmetic::power2::{lemma_pow2_pos, pow2};
use vstd::prelude::*;

use super::biquad::{high_pass_taps, History, Taps};
use super::chain::VoiceChain;
use super::compressor::gain_reduction_db;
use super::eq::{peak_taps, shelf_taps};
use super::gain::Gain;
use super::gate::Gate;
use super::level::{is_linear, ramp, smooth, Elementary};
use super::laws_limiter::all_finite;
use super::meter::peak_after;
use crate::nearest::lemma_round_representable;
use crate::numbers::{MINUS_TWO, SQRT_HALF, SQRT_TWO, TWO};
use crate::numeric::{
    hardly_above, law_one_is_neutral, lemma_over, lemma_over_larger, lemma_plus,
    lemma_size_one, lemma_size_order, lemma_smooth_at_one, lemma_smooth_lift,
    lemma_smooth_monotone,
    lemma_times_abs, lemma_times_shrinks, nonneg, size,
};
use crate::rounding::{
    lemma_magnitude_monotone, lemma_magnitude_zero, magnitude, round_magnitude,
};
use crate::single::Single;
use crate::state::Settings;

verus! {

proof fn lemma_ramp_at_one(c: Single, n: nat)
    requires
        c.bits <= Single::one().bits,
    ensures
        ramp(c, Single::one(), Single::one(), n) == Single::one(),
    decreases n,
{
    if n > 0 {
        lemma_ramp_at_one(c, (n - 1) as nat);
        lemma_smooth_at_one(c);
    }
}

/// A gain that stands at one changes nothing, and stays there.
pub proof fn law_unity_gain_is_transparent(g: Gain, input: Seq<Single>)
    requires
        g.current_linear == Single::one(),
        g.gain_linear == Single::one(),
        g.smooth_coeff.bits <= Single::one().bits,
        forall|i: int| 0 <= i < input.len() ==> !(#[trigger] input[i]).nan(),
    ensures
        g.output(input) == input,
        g.after(input) == g,
{
    assert forall|i: int| 0 <= i < input.len() implies g.output(input)[i] == input[i] by {
        lemma_ramp_at_one(g.smooth_coeff, (i + 1) as nat);
        law_one_is_neutral(input[i]);
    }
    lemma_ramp_at_one(g.smooth_coeff, input.len());
    assert(g.output(input) =~= input);
}

/// Amplitudes, infinity included, are ordered as their bits are.
proof fn lemma_amplitude_order(a: Single, b: Single)
    requires
        a.bits <= 0x7f80_0000,
        b.bits <= 0x7f80_0000,
    ensures
        a.gt(b) == (a.bits > b.bits),
        a.le(b) == (a.bits <= b.bits),
{
    reveal(crate::float::less);
    reveal(crate::float::at_most);
    if a.bits < b.bits {
        lemma_magnitude_monotone(23, a.bits as nat, b.bits as nat);
    } else if b.bits < a.bits {
        lemma_magnitude_monotone(23, b.bits as nat, a.bits as nat);
    }
}

/// The peak is never below what it was, nor below any sample's amplitude; and it is no larger
/// than the largest of them.
pub proof fn law_peak_is_the_largest(peak: Single, input: Seq<Single>)
    requires
        peak.bits <= 0x7f80_0000,
    ensures
        peak.le(peak_after(peak, input)),
        forall|i: int|
            0 <= i < input.len() && !input[i].nan() ==> (#[trigger] input[i]).abs().le(
                peak_after(peak, input),
            ),
        peak_after(peak, input) == peak || exists|i: int|
            0 <= i < input.len() && peak_after(peak, input) == (#[trigger] input[i]).abs(),
    decreases input.len(),
{
    lemma_peak_is_amplitude(peak, input);
    let p = peak_after(peak, input);
    if input.len() == 0 {
        lemma_amplitude_order(peak, p);
    } else {
        let rest = input.drop_last();
        let x = input.last();
        law_peak_is_the_largest(peak, rest);
        lemma_peak_is_amplitude(peak, rest);
        let q = peak_after(peak, rest);
        if !x.nan() {
            lemma_amplitude_order(x.abs(), q);
            lemma_amplitude_order(x.abs(), p);
        }
        lemma_amplitude_order(peak, q);
        lemma_amplitude_order(peak, p);
        assert forall|i: int| 0 <= i < input.len() && !input[i].nan() implies (
        #[trigger] input[i]).abs().le(p) by {
            if i < rest.len() {
                assert(rest[i] == input[i]);
                lemma_amplitude_order(input[i].abs(), q);
                lemma_amplitude_order(input[i].abs(), p);
            }
        }
        if p == q && q != peak {
            let i = choose|i: int| 0 <= i < rest.len() && q == (#[trigger] rest[i]).abs();
            assert(input[i] == rest[i]);
        }
    }
}

proof fn lemma_peak_is_amplitude(peak: Single, input: Seq<Single>)
    requires
        peak.bits <= 0x7f80_0000,
    ensures
        peak_after(peak, input).bits <= 0x7f80_0000,
    decreases input.len(),
{
    reveal(crate::float::less);
    if input.len() > 0 {
        lemma_peak_is_amplitude(peak, input.drop_last());
    }
}

/// The hold time never exceeds what the settings say.
pub proof fn law_gate_hold_is_bounded(g: Gate, input: Seq<Single>)
    requires
        g.hold_counter <= g.hold_samples,
    ensures
        g.after(input).hold_counter <= g.hold_samples,
        g.after(input).hold_samples == g.hold_samples,
    decreases input.len(),
{
    if input.len() > 0 {
        law_gate_hold_is_bounded(g, input.drop_last());
    }
}

/// The noise gate stays open for exactly the hold time: after the last sample `i` that reached
/// the threshold, it is to be open at a later sample `j` if and only if no more than
/// `hold_samples` have gone by.
pub proof fn law_gate_holds_as_long_as_set(g: Gate, input: Seq<Single>, i: int, j: int)
    requires
        0 <= i < j < input.len(),
        g.after(input.take(i)).triggers(input[i]),
        forall|k: int|
            i < k <= j ==> !(#[trigger] g.after(input.take(k))).triggers(input[k]),
    ensures
        g.after(input.take(j)).opens(input[j]) <==> j - i <= g.hold_samples,
{
    lemma_hold_counts_down(g, input, i, j);
    assert(!g.after(input.take(j)).triggers(input[j]));
}

proof fn lemma_hold_counts_down(g: Gate, input: Seq<Single>, i: int, j: int)
    requires
        0 <= i < j < input.len(),
        g.after(input.take(i)).triggers(input[i]),
        forall|k: int|
            i < k <= j ==> !(#[trigger] g.after(input.take(k))).triggers(input[k]),
    ensures
        g.after(input.take(j)).hold_samples == g.hold_samples,
        g.after(input.take(j)).hold_counter == if g.hold_samples > j - 1 - i {
            g.hold_samples - (j - 1 - i)
        } else {
            0
        },
    decreases j - i,
{
    let before = input.take(j - 1);
    let now = input.take(j);
    assert(now.drop_last() =~= before);
    assert(now.last() == input[j - 1]);
    if j == i + 1 {
        lemma_hold_samples_fixed(g, input.take(i));
    } else {
        lemma_hold_counts_down(g, input, i, j - 1);
        assert(!g.after(input.take(j - 1)).triggers(input[j - 1]));
    }
}

proof fn lemma_hold_samples_fixed(g: Gate, input: Seq<Single>)
    ensures
        g.after(input).hold_samples == g.hold_samples,
    decreases input.len(),
{
    if input.len() > 0 {
        lemma_hold_samples_fixed(g, input.drop_last());
    }
}

/// The gain and its coefficients lie between zero and one.
pub open spec fn gate_sound(g: Gate) -> bool {
    &&& g.gain.bits <= Single::one().bits
    &&& g.gain_attack_coeff.bits <= Single::one().bits
    &&& g.gain_release_coeff.bits <= Single::one().bits
}

/// The gain of the noise gate stays between zero and one.
pub proof fn law_gate_gain_in_range(g: Gate, input: Seq<Single>)
    requires
        gate_sound(g),
    ensures
        gate_sound(g.after(input)),
    decreases input.len(),
{
    if input.len() > 0 {
        law_gate_gain_in_range(g, input.drop_last());
        let b = g.after(input.drop_last());
        let zero = Single::zero();
        let one = Single::one();
        lemma_smooth_monotone(b.gain_attack_coeff, b.gain, zero, b.gain, zero);
        lemma_smooth_monotone(b.gain_attack_coeff, b.gain, one, b.gain, one);
        lemma_smooth_monotone(b.gain_release_coeff, b.gain, zero, b.gain, zero);
        lemma_smooth_monotone(b.gain_release_coeff, b.gain, one, b.gain, one);
    }
}

/// The noise gate never makes a sample larger.
pub proof fn law_gate_never_amplifies(g: Gate, input: Seq<Single>, i: int)
    requires
        gate_sound(g),
        0 <= i < input.len(),
        input[i].finite(),
    ensures
        g.output(input)[i].finite(),
        g.output(input)[i].abs().bits <= input[i].abs().bits,
{
    law_gate_gain_in_range(g, input.take(i + 1));
    let gain = g.after(input.take(i + 1)).gain;
    lemma_size_one();
    lemma_times_abs(input[i], gain);
    lemma_times_shrinks(input[i].abs(), gain);
}

/// A fully open noise gate passes a sample unchanged, and stays fully open, as long as the
/// signal or the hold time keeps it open.
pub proof fn law_open_gate_is_transparent(g: Gate, x: Single)
    requires
        gate_sound(g),
        g.gain == Single::one(),
        g.opens(x),
        !x.nan(),
    ensures
        g.stepped(x).gain == Single::one(),
        g.output(seq![x]) == seq![x],
{
    lemma_smooth_at_one(g.gain_attack_coeff);
    lemma_smooth_at_one(g.gain_release_coeff);
    law_one_is_neutral(x);
    let one_block = seq![x];
    assert(one_block.take(1) =~= one_block);
    assert(one_block.drop_last() =~= Seq::<Single>::empty());
    reveal_with_fuel(Gate::after, 2);
    assert(g.after(one_block) == g.stepped(x));
    assert(g.output(one_block) =~= one_block);
}

/// A finite number of value zero.
pub open spec fn is_zero(x: Single) -> bool {
    x.finite() && x.value() == 0
}

/// Adding or subtracting zero keeps the value.
proof fn lemma_plus_zero(x: Single, z: Single)
    requires
        x.finite(),
        is_zero(z),
    ensures
        x.plus(z).finite(),
        x.plus(z).value() == x.value(),
        x.minus(z).finite(),
        x.minus(z).value() == x.value(),
{
    reveal(crate::float::added);
    lemma_magnitude_zero(23, z.word().mag as nat);
    lemma_magnitude_zero(23, x.word().mag as nat);
    lemma_round_representable(
        23,
        x.word().mag as nat,
        magnitude(23, x.word().mag as nat),
        1,
    );
}

proof fn lemma_times_zero(x: Single, z: Single)
    requires
        x.finite(),
        is_zero(z),
    ensures
        is_zero(x.times(z)),
        is_zero(z.times(x)),
{
    reveal(crate::float::multiplied);
    lemma_magnitude_zero(23, z.word().mag as nat);
    lemma_magnitude_zero(23, 0);
    lemma_pow2_pos(149);
    let m: nat = magnitude(23, x.word().mag as nat);
    assert(m * 0 == 0 && 0 * m == 0) by (nonlinear_arith);
    lemma_round_representable(23, 0, 0, pow2(149));
}

/// All coefficients are finite.
pub open spec fn finite_taps(t: Taps) -> bool {
    t.b0.finite() && t.b1.finite() && t.b2.finite() && t.a1.finite() && t.a2.finite()
}

/// All that is remembered is zero.
pub open spec fn zero_history(h: History) -> bool {
    is_zero(h.x1) && is_zero(h.x2) && is_zero(h.y1) && is_zero(h.y2)
}

proof fn lemma_zero_answer(h: History, t: Taps, x: Single)
    requires
        finite_taps(t),
        zero_history(h),
        is_zero(x),
    ensures
        is_zero(h.answer(t, x)),
{
    lemma_times_zero(t.b0, x);
    lemma_times_zero(t.b1, h.x1);
    lemma_times_zero(t.b2, h.x2);
    lemma_times_zero(t.a1, h.y1);
    lemma_times_zero(t.a2, h.y2);
    let s0 = t.b0.times(x);
    let s1 = s0.plus(t.b1.times(h.x1));
    let s2 = s1.plus(t.b2.times(h.x2));
    let s3 = s2.minus(t.a1.times(h.y1));
    lemma_plus_zero(s0, t.b1.times(h.x1));
    lemma_plus_zero(s1, t.b2.times(h.x2));
    lemma_plus_zero(s2, t.a1.times(h.y1));
    lemma_plus_zero(s3, t.a2.times(h.y2));
}

/// A filter section at rest makes silence of silence, and stays at rest.
pub proof fn law_filter_keeps_silence(h: History, t: Taps, input: Seq<Single>)
    requires
        finite_taps(t),
        zero_history(h),
        forall|i: int| 0 <= i < input.len() ==> is_zero(#[trigger] input[i]),
    ensures
        zero_history(h.after(t, input)),
        forall|i: int| 0 <= i < input.len() ==> is_zero(#[trigger] h.output(t, input)[i]),
    decreases input.len(),
{
    lemma_silent_history(h, t, input);
    assert forall|i: int| 0 <= i < input.len() implies is_zero(
        #[trigger] h.output(t, input)[i],
    ) by {
        let block = input.take(i);
        assert forall|j: int| 0 <= j < block.len() implies is_zero(#[trigger] block[j]) by {
            assert(block[j] == input[j]);
        }
        lemma_silent_history(h, t, block);
        lemma_zero_answer(h.after(t, block), t, input[i]);
    }
}

proof fn lemma_silent_history(h: History, t: Taps, input: Seq<Single>)
    requires
        finite_taps(t),
        zero_history(h),
        forall|i: int| 0 <= i < input.len() ==> is_zero(#[trigger] input[i]),
    ensures
        zero_history(h.after(t, input)),
    decreases input.len(),
{
    if input.len() > 0 {
        let rest = input.drop_last();
        assert forall|j: int| 0 <= j < rest.len() implies is_zero(#[trigger] rest[j]) by {
            assert(rest[j] == input[j]);
        }
        lemma_silent_history(h, t, rest);
        lemma_zero_answer(h.after(t, rest), t, input.last());
    }
}

/// All that is remembered is finite.
pub open spec fn finite_history(h: History) -> bool {
    h.x1.finite() && h.x2.finite() && h.y1.finite() && h.y2.finite()
}

proof fn lemma_identity_answer(h: History, x: Single)
    requires
        finite_history(h),
        x.finite(),
    ensures
        h.answer(Taps::identity(), x).finite(),
        h.answer(Taps::identity(), x).value() == x.value(),
{
    let t = Taps::identity();
    let zero = Single::zero();
    lemma_magnitude_zero(23, 0);
    lemma_size_one();
    law_one_is_neutral(x);
    lemma_times_zero(h.x1, zero);
    lemma_times_zero(h.x2, zero);
    lemma_times_zero(h.y1, zero);
    lemma_times_zero(h.y2, zero);
    let s0 = t.b0.times(x);
    let s1 = s0.plus(t.b1.times(h.x1));
    let s2 = s1.plus(t.b2.times(h.x2));
    let s3 = s2.minus(t.a1.times(h.y1));
    lemma_plus_zero(s0, t.b1.times(h.x1));
    lemma_plus_zero(s1, t.b2.times(h.x2));
    lemma_plus_zero(s2, t.a1.times(h.y1));
    lemma_plus_zero(s3, t.a2.times(h.y2));
}

/// A section that was not prepared passes every finite sample through.
pub proof fn law_unprepared_section_is_transparent(h: History, input: Seq<Single>, i: int)
    requires
        finite_history(h),
        all_finite(input),
        0 <= i < input.len(),
    ensures
        h.output(Taps::identity(), input)[i].finite(),
        h.output(Taps::identity(), input)[i].value() == input[i].value(),
{
    let block = input.take(i);
    assert forall|j: int| 0 <= j < block.len() implies (#[trigger] block[j]).finite() by {
        assert(block[j] == input[j]);
    }
    lemma_identity_history(h, block);
    lemma_identity_answer(h.after(Taps::identity(), block), input[i]);
}

proof fn lemma_identity_history(h: History, input: Seq<Single>)
    requires
        finite_history(h),
        all_finite(input),
    ensures
        finite_history(h.after(Taps::identity(), input)),
    decreases input.len(),
{
    if input.len() > 0 {
        let rest = input.drop_last();
        assert forall|j: int| 0 <= j < rest.len() implies (#[trigger] rest[j]).finite() by {
            assert(rest[j] == input[j]);
        }
        lemma_identity_history(h, rest);
        lemma_identity_answer(h.after(Taps::identity(), rest), input.last());
    }
}

/// Dividing by one changes nothing.
proof fn lemma_over_one(x: Single)
    requires
        !x.nan(),
    ensures
        x.over(Single::one()) == x,
{
    reveal(crate::float::divided);
    lemma_size_one();
    let m: nat = magnitude(23, x.word().mag as nat);
    if x.finite() {
        lemma_round_representable(23, x.word().mag as nat, m * pow2(149), pow2(149));
    }
}

/// A positive number over itself is one.
proof fn lemma_over_itself(x: Single)
    requires
        nonneg(x),
        x.bits > 0,
    ensures
        x.over(x) == Single::one(),
{
    lemma_size_one();
    lemma_over(x, x);
    let s: nat = size(x);
    let u: nat = pow2(149);
    assert(s * u == u * s) by (nonlinear_arith);
    lemma_round_representable(23, Single::one().bits as nat, u * s, s);
}

/// A peak band of 0 dB has the same coefficients above and below the line: what it feeds forward
/// is what it feeds back.
pub proof fn law_flat_peak_band_is_balanced(q: Single, sin_w0: Single, cos_w0: Single)
    requires
        ({
            let alpha = sin_w0.over(Single::from_bits(TWO).times(q));
            let a0 = Single::one().plus(alpha);
            !alpha.nan() && nonneg(a0) && a0.bits > 0
        }),
    ensures
        ({
            let t = peak_taps(q, sin_w0, cos_w0, Single::one());
            t.b0 == Single::one() && t.b1 == t.a1 && t.b2 == t.a2
        }),
{
    let alpha = sin_w0.over(Single::from_bits(TWO).times(q));
    law_one_is_neutral(alpha);
    lemma_over_one(alpha);
    lemma_over_itself(Single::one().plus(alpha));
}

/// A shelf of 0 dB has the same coefficients above and below the line.
pub proof fn law_flat_shelf_is_balanced(
    high: bool,
    sin_w0: Single,
    cos_w0: Single,
    root: Single,
)
    requires
        cos_w0.abs().bits <= Single::one().bits,
        ({
            let two = Single::from_bits(TWO);
            let alpha = sin_w0.over(two).times(Single::from_bits(SQRT_TWO));
            let slope = two.times(root).times(alpha);
            let a0 = two.plus(slope);
            slope.finite() && nonneg(a0) && a0.bits > 0
        }),
    ensures
        ({
            let t = shelf_taps(high, sin_w0, cos_w0, Single::one(), root);
            &&& t.b0 == Single::one()
            &&& t.b1.value() == t.a1.value()
            &&& t.b2 == t.a2
        }),
{
    let one = Single::one();
    let zero = Single::zero();
    let two = Single::from_bits(TWO);
    let alpha = sin_w0.over(two).times(Single::from_bits(SQRT_TWO));
    let slope = two.times(root).times(alpha);
    let up = one.plus(one);
    let down = one.minus(one);
    lemma_two();
    assert(down == zero) by {
        reveal(crate::float::added);
    }
    lemma_size_one();
    lemma_magnitude_zero(23, 0);
    lemma_times_zero(cos_w0, zero);
    // both flanks are two
    let tiny = down.times(cos_w0);
    lemma_two_keeps(tiny);
    let a0 = two.plus(slope);
    lemma_over_itself(a0);
    law_one_is_neutral(a0);
    lemma_sum_is_number(two, slope);
    law_one_is_neutral(two.minus(slope));
    // the tilts are opposite
    let tilt = two.times(cos_w0);
    lemma_twice_is_finite(cos_w0);
    lemma_plus_zero_left(tilt);
    let tilt_up = zero.plus(tilt);
    let tilt_down = zero.minus(tilt);
    let minus_two = Single::from_bits(MINUS_TWO);
    law_one_is_neutral(two);
    law_one_is_neutral(minus_two);
    lemma_opposite_products(two, minus_two, tilt_up, tilt_down, a0);
}

/// One and one are two.
pub proof fn lemma_two()
    ensures
        Single::one().plus(Single::one()) == Single::from_bits(TWO),
        size(Single::from_bits(TWO)) == 2 * pow2(149),
{
    let one = Single::one();
    let two = Single::from_bits(TWO);
    lemma_size_one();
    vstd::arithmetic::power2::lemma2_to64();
    vstd::arithmetic::power2::lemma2_to64_rest();
    crate::nearest::lemma_magnitude_of_parts(23, 127, 0x80_0000);
    crate::arith::lemma_pow2_sum(23, 127);
    crate::arith::lemma_pow2_double(149);
    lemma_plus(one, one);
    lemma_round_representable(23, two.bits as nat, size(two), 1);
}

/// Adding or subtracting zero leaves two as it is.
proof fn lemma_two_keeps(z: Single)
    requires
        is_zero(z),
    ensures
        Single::from_bits(TWO).plus(z) == Single::from_bits(TWO),
        Single::from_bits(TWO).minus(z) == Single::from_bits(TWO),
{
    reveal(crate::float::added);
    lemma_two();
    lemma_size_one();
    let two = Single::from_bits(TWO);
    lemma_magnitude_zero(23, z.word().mag as nat);
    lemma_round_representable(23, two.bits as nat, size(two), 1);
}

/// A sum or difference of finite numbers is a number.
proof fn lemma_sum_is_number(a: Single, b: Single)
    requires
        a.finite(),
        b.finite(),
    ensures
        !a.plus(b).nan(),
        !a.minus(b).nan(),
{
    reveal(crate::float::added);
}

/// Twice a number of at most one is finite.
proof fn lemma_twice_is_finite(c: Single)
    requires
        c.abs().bits <= Single::one().bits,
    ensures
        Single::from_bits(TWO).times(c).finite(),
{
    let two = Single::from_bits(TWO);
    lemma_size_one();
    lemma_two();
    lemma_times_abs(c, two);
    crate::numeric::lemma_times_commutes(two, c);
    crate::numeric::lemma_times_monotone(c.abs(), two, Single::one(), two);
    law_one_is_neutral(two);
}

/// A number added to zero keeps its value, and taken from zero gets the opposite one.
proof fn lemma_plus_zero_left(x: Single)
    requires
        x.finite(),
    ensures
        Single::zero().plus(x).finite(),
        Single::zero().minus(x).finite(),
        Single::zero().plus(x).value() == x.value(),
        Single::zero().minus(x).value() == -x.value(),
{
    reveal(crate::float::added);
    lemma_magnitude_zero(23, 0);
    lemma_magnitude_zero(23, x.word().mag as nat);
    lemma_round_representable(23, x.word().mag as nat, magnitude(23, x.word().mag as nat), 1);
}

/// The value of a datum tells its magnitude.
proof fn lemma_value_tells(x: Single, y: Single)
    requires
        x.finite(),
        y.finite(),
        x.value() == y.value() || x.value() == -y.value(),
    ensures
        x.word().mag == y.word().mag,
        x.word().mag != 0 ==> (x.word().neg == y.word().neg <==> x.value() == y.value()),
{
    lemma_magnitude_zero(23, x.word().mag as nat);
    lemma_magnitude_zero(23, y.word().mag as nat);
    if x.word().mag < y.word().mag {
        lemma_magnitude_monotone(23, x.word().mag as nat, y.word().mag as nat);
    } else if y.word().mag < x.word().mag {
        lemma_magnitude_monotone(23, y.word().mag as nat, x.word().mag as nat);
    }
}

/// Two products whose factors are opposite in both places have the same value, and so have their
/// quotients by the same number.
proof fn lemma_opposite_products(two: Single, minus_two: Single, x: Single, y: Single, a0: Single)
    requires
        two == Single::from_bits(TWO),
        minus_two == Single::from_bits(MINUS_TWO),
        x.finite(),
        y.finite(),
        y.value() == -x.value(),
    ensures
        minus_two.times(x).over(a0).value() == two.times(y).over(a0).value(),
{
    reveal(crate::float::multiplied);
    reveal(crate::float::divided);
    lemma_value_tells(x, y);
    let p = minus_two.times(x);
    let q = two.times(y);
    assert(minus_two.word().mag == two.word().mag);
    assert(p.word().mag == q.word().mag);
    if x.word().mag == 0 {
        lemma_magnitude_zero(23, 0);
        lemma_pow2_pos(149);
        let m: nat = magnitude(23, two.word().mag as nat);
        assert(m * 0 == 0) by (nonlinear_arith);
        lemma_round_representable(23, 0, 0, pow2(149));
        assert(p.word().mag == 0);
        let r = p.over(a0);
        let s = q.over(a0);
        assert(0 * pow2(149) == 0) by (nonlinear_arith);
        if a0.finite() && a0.word().mag != 0 {
            lemma_magnitude_zero(23, a0.word().mag as nat);
            lemma_round_representable(23, 0, 0, magnitude(23, a0.word().mag as nat));
        }
        assert(r.word().mag == s.word().mag);
        assert(r.word().mag == 0 || r == s);
    } else {
        lemma_magnitude_zero(23, x.word().mag as nat);
        assert(x.word().neg != y.word().neg);
        assert(p == q);
    }
}

/// Two feed-forward steps of the high-pass filter together take back what the middle one gives:
/// its coefficients add up to nothing, where none of them is too small to be halved.
pub proof fn law_high_pass_coefficients_cancel(sin_w0: Single, cos_w0: Single)
    requires
        ({
            let t = high_pass_taps(sin_w0, cos_w0);
            let up = Single::one().plus(cos_w0);
            let alpha = sin_w0.over(Single::from_bits(TWO).times(Single::from_bits(SQRT_HALF)));
            let a0 = Single::one().plus(alpha);
            &&& nonneg(up) && up.bits >= 0x0100_0000
            &&& nonneg(a0) && a0.bits > 0
            &&& t.b1.finite()
            &&& t.b0.bits > 0x0080_0000
        }),
    ensures
        ({
            let t = high_pass_taps(sin_w0, cos_w0);
            t.b2 == t.b0 && nonneg(t.b0) && t.b1.value() == -2 * t.b0.value()
        }),
{
    let t = high_pass_taps(sin_w0, cos_w0);
    let two = Single::from_bits(TWO);
    let up = Single::one().plus(cos_w0);
    let alpha = sin_w0.over(two.times(Single::from_bits(SQRT_HALF)));
    let a0 = Single::one().plus(alpha);
    lemma_two();
    lemma_size_one();
    let u: nat = pow2(149);
    let half = up.over(two);
    // halving is exact
    lemma_over(up, two);
    vstd::arithmetic::power2::lemma2_to64();
    vstd::arithmetic::power2::lemma2_to64_rest();
    crate::nearest::lemma_magnitude_of_parts(23, 1, 0x80_0000);
    lemma_size_order(Single { bits: 0x0100_0000 }, up);
    assert(size(Single { bits: 0x0100_0000 }) == 0x100_0000);
    let n: nat = size(up) * u;
    assert(2 * n == size(up) * (2 * u)) by (nonlinear_arith)
        requires
            n == size(up) * u,
    ;
    lemma_round_representable(23, up.bits as nat, 2 * n, 2 * u);
    assert((2 * u) * pow2(23) <= n) by (nonlinear_arith)
        requires
            n == size(up) * u,
            size(up) >= 0x100_0000,
            pow2(23) == 0x80_0000,
    ;
    crate::nearest::lemma_round_doubles(23, n, 2 * u);
    assert(2 * size(half) == size(up));
    if half.bits >= 0x7f80_0000 {
        lemma_magnitude_monotone(23, up.bits as nat, half.bits as nat);
    }
    // so one coefficient is twice the other
    lemma_over(half, a0);
    lemma_over(up, a0);
    let s: nat = size(a0);
    let k: nat = size(half) * u;
    assert(size(up) * u == 2 * k) by (nonlinear_arith)
        requires
            size(up) == 2 * size(half),
            k == size(half) * u,
    ;
    lemma_negated_quotient(up, a0);
    lemma_quotient_doubles(k, s);
}

/// The quotient of an opposite number is the opposite quotient.
proof fn lemma_negated_quotient(a: Single, b: Single)
    requires
        nonneg(a),
        nonneg(b),
        b.bits > 0,
    ensures
        a.negated().over(b).word().mag == a.over(b).word().mag,
        a.negated().over(b).word().neg,
{
    reveal(crate::float::divided);
}

/// A high-pass filter blocks a constant signal: once its output is zero, it stays zero as long
/// as the input does not change.
pub proof fn law_high_pass_blocks_dc(t: Taps, c: Single, z1: Single, z2: Single)
    requires
        t.b2 == t.b0,
        nonneg(t.b0),
        t.b1.finite(),
        t.b1.value() == -2 * t.b0.value(),
        t.a1.finite(),
        t.a2.finite(),
        c.finite(),
        is_zero(z1),
        is_zero(z2),
        t.b1.times(c).finite(),
        t.b0.times(c).abs().bits > 0x0080_0000,
    ensures
        is_zero((History { x1: c, x2: c, y1: z1, y2: z2 }).answer(t, c)),
{
    let p = t.b0.times(c);
    let q = t.b1.times(c);
    lemma_double_product(t.b0, t.b1, c);
    assert(q.value() == -2 * p.value());
    let s1 = p.plus(q);
    lemma_sum_of_opposites(p, q);
    let s2 = s1.plus(p);
    lemma_times_zero(t.a1, z1);
    lemma_times_zero(t.a2, z2);
    let s3 = s2.minus(t.a1.times(z1));
    lemma_plus_zero(s2, t.a1.times(z1));
    lemma_plus_zero(s3, t.a2.times(z2));
}

/// A factor that is minus twice another gives a product that is minus twice the other's.
proof fn lemma_double_product(b: Single, d: Single, c: Single)
    requires
        nonneg(b),
        d.finite(),
        d.value() == -2 * b.value(),
        c.finite(),
        d.times(c).finite(),
        b.times(c).abs().bits > 0x0080_0000,
    ensures
        b.times(c).finite(),
        d.times(c).value() == -2 * b.times(c).value(),
{
    let x: nat = magnitude(23, c.word().mag as nat);
    let n: nat = size(b) * x;
    let m: nat = magnitude(23, d.word().mag as nat);
    lemma_product_word(b, c);
    lemma_product_word(d, c);
    assert(m == 2 * size(b));
    assert(m * x == 2 * n) by (nonlinear_arith)
        requires
            m == 2 * size(b),
            n == size(b) * x,
    ;
    lemma_pow2_pos(149);
    lemma_quotient_doubles(n, pow2(149));
    lemma_magnitude_zero(23, b.bits as nat);
    if size(b) == 0 {
        assert(n == 0) by (nonlinear_arith)
            requires
                n == size(b) * x,
                size(b) == 0,
        ;
        lemma_magnitude_zero(23, 0);
        lemma_round_representable(23, 0, 0, pow2(149));
    }
    assert(d.word().neg);
}

/// Sign and magnitude of a product of finite numbers.
proof fn lemma_product_word(a: Single, b: Single)
    requires
        a.finite(),
        b.finite(),
    ensures
        a.times(b).word().neg == (a.word().neg != b.word().neg),
        a.times(b).word().mag == round_magnitude(
            23,
            magnitude(23, a.word().mag as nat) * magnitude(23, b.word().mag as nat),
            pow2(149),
        ),
{
    reveal(crate::float::multiplied);
}

/// Twice a quotient that is more than the smallest normal number rounds to twice what the
/// quotient rounds to.
proof fn lemma_quotient_doubles(n: nat, d: nat)
    requires
        d > 0,
        round_magnitude(23, n, d) > 0x80_0000,
        round_magnitude(23, 2 * n, d) < 0x7f80_0000,
    ensures
        round_magnitude(23, n, d) < 0x7f80_0000,
        magnitude(23, round_magnitude(23, 2 * n, d)) == 2 * magnitude(
            23,
            round_magnitude(23, n, d),
        ),
{
    vstd::arithmetic::power2::lemma2_to64();
    vstd::arithmetic::power2::lemma2_to64_rest();
    if d * pow2(23) > n {
        crate::nearest::lemma_magnitude_of_parts(23, 0, 0x80_0000);
        let low: nat = 0x80_0000;
        assert(n * 1 <= low * d) by (nonlinear_arith)
            requires
                d * pow2(23) > n,
                low == pow2(23),
        ;
        crate::nearest::law_rounding_is_monotone(23, n, d, low, 1);
        lemma_round_representable(23, 0x80_0000, low, 1);
    }
    crate::nearest::lemma_round_doubles(23, n, d);
    crate::nearest::lemma_round_monotone(23, n, 2 * n, d);
}

/// A number, minus twice itself, plus itself again, is nothing.
proof fn lemma_sum_of_opposites(p: Single, q: Single)
    requires
        p.finite(),
        q.finite(),
        q.value() == -2 * p.value(),
    ensures
        is_zero(p.plus(q).plus(p)),
{
    reveal(crate::float::added);
    lemma_magnitude_zero(23, 0);
    let m: nat = magnitude(23, p.word().mag as nat);
    lemma_magnitude_zero(23, p.word().mag as nat);
    lemma_round_representable(23, p.word().mag as nat, m, 1);
    let s = p.plus(q);
    assert(s.finite());
    assert(s.value() == -p.value());
}

/// A level that does not exceed the threshold is not reduced.
pub proof fn law_compressor_leaves_quiet_alone(threshold: Single, ratio: Single, env_db: Single)
    requires
        env_db.le(threshold),
    ensures
        gain_reduction_db(threshold, ratio, env_db) == Single::zero(),
{
    reveal(crate::float::less);
    reveal(crate::float::at_most);
}

/// With a ratio of at least one, the compressor never boosts: the reduction is not negative, and
/// it is no more than what the level exceeds the threshold by.
pub proof fn law_compressor_only_reduces(threshold: Single, ratio: Single, env_db: Single)
    requires
        nonneg(ratio),
        ratio.bits >= Single::one().bits,
        env_db.gt(threshold),
        nonneg(env_db.minus(threshold)),
    ensures
        ({
            let r = gain_reduction_db(threshold, ratio, env_db);
            nonneg(r) && r.bits <= env_db.minus(threshold).bits
        }),
{
    let one = Single::one();
    lemma_size_one();
    if ratio == one {
        lemma_over_itself(one);
    } else {
        lemma_over_larger(one, ratio);
    }
    let inverse = one.over(ratio);
    crate::numeric::lemma_shares_of_one(inverse);
    lemma_times_shrinks(env_db.minus(threshold), one.minus(inverse));
}

/// Each stage can be left out by itself: a stage that is off hands on what it is given, and stays
/// as it is.
pub proof fn law_each_stage_can_be_bypassed<M: Elementary>(
    m: &M,
    c: VoiceChain,
    input: Seq<Single>,
    squeezed: Seq<Single>,
    later: VoiceChain,
)
    requires
        c.is_after_compressor(m, input, squeezed),
        c.moves_to(input, squeezed, later),
    ensures
        !c.gain_enabled ==> c.after_gain(input) == input && later.gain == c.gain,
        !c.high_pass_enabled ==> c.after_high_pass(input) == c.after_gain(input)
            && later.high_pass == c.high_pass,
        !c.eq_enabled ==> c.after_eq(input) == c.after_high_pass(input) && later.eq == c.eq,
        !c.gate_enabled ==> c.after_gate(input) == c.after_eq(input) && later.gate == c.gate,
        !c.compressor_enabled ==> squeezed == c.after_gate(input) && later.compressor
            == c.compressor,
        !c.limiter_enabled ==> c.after_limiter(squeezed) == squeezed && later.limiter == c.limiter,
{
}

/// Silence stays silent in every stage that scales the signal, as long as the gain is finite.
pub proof fn law_scaled_silence_is_silent(x: Single, gain: Single)
    requires
        is_zero(x),
        gain.finite(),
    ensures
        is_zero(x.times(gain)),
{
    lemma_times_zero(gain, x);
}

/// A smoothed parameter does not overshoot: within zero and one, a step towards a target ends
/// between a step that stays where it is and a step that is already there, and these two hardly
/// rise.
pub proof fn law_smoothing_does_not_overshoot(coeff: Single, current: Single, target: Single)
    requires
        coeff.bits <= Single::one().bits,
        current.bits <= Single::one().bits,
        target.bits <= Single::one().bits,
    ensures
        ({
            let stay = smooth(coeff, current, current);
            let step = smooth(coeff, current, target);
            let there = smooth(coeff, target, target);
            &&& current.bits <= target.bits ==> stay.bits <= step.bits <= there.bits
            &&& current.bits >= target.bits ==> stay.bits >= step.bits >= there.bits
            &&& hardly_above(stay, current)
            &&& hardly_above(there, target)
        }),
{
    if current.bits <= target.bits {
        lemma_smooth_monotone(coeff, current, current, current, target);
        lemma_smooth_monotone(coeff, current, target, target, target);
    }
    if current.bits >= target.bits {
        lemma_smooth_monotone(coeff, current, target, current, current);
        lemma_smooth_monotone(coeff, target, target, current, target);
    }
    lemma_smooth_lift(coeff, current);
    lemma_smooth_lift(coeff, target);
}

/// A closed noise gate stays closed, and lets nothing through, as long as neither the signal nor
/// the hold time opens it.
pub proof fn law_closed_gate_is_silent(g: Gate, x: Single)
    requires
        gate_sound(g),
        g.gain == Single::zero(),
        !g.opens(x),
        x.finite(),
    ensures
        g.stepped(x).gain == Single::zero(),
        is_zero(g.output(seq![x])[0]),
{
    let zero = Single::zero();
    lemma_zero_stays(g.gain_attack_coeff);
    lemma_zero_stays(g.gain_release_coeff);
    let one_block = seq![x];
    assert(one_block.take(1) =~= one_block);
    assert(one_block.drop_last() =~= Seq::<Single>::empty());
    reveal_with_fuel(Gate::after, 2);
    assert(g.after(one_block) == g.stepped(x));
    lemma_magnitude_zero(23, 0);
    lemma_times_zero(x, zero);
}

/// Smoothing at zero stays at zero.
proof fn lemma_zero_stays(c: Single)
    requires
        c.bits <= Single::one().bits,
    ensures
        smooth(c, Single::zero(), Single::zero()) == Single::zero(),
{
    let zero = Single::zero();
    let v = Single::one().minus(c);
    lemma_size_one();
    crate::numeric::lemma_shares_of_one(c);
    lemma_times_shrinks(zero, c);
    lemma_times_shrinks(zero, v);
    crate::numeric::lemma_times_commutes(c, zero);
    crate::numeric::lemma_times_commutes(v, zero);
    lemma_magnitude_zero(23, 0);
    lemma_plus(zero, zero);
    lemma_round_representable(23, 0, 0, 1);
}

/// A chain with every stage off hands a block through, and only the meter takes notice.
pub proof fn law_bypass_changes_nothing<M: Elementary>(
    m: &M,
    c: VoiceChain,
    input: Seq<Single>,
    squeezed: Seq<Single>,
    later: VoiceChain,
)
    requires
        !c.gain_enabled && !c.high_pass_enabled && !c.eq_enabled,
        !c.gate_enabled && !c.compressor_enabled && !c.limiter_enabled,
        c.is_after_compressor(m, input, squeezed),
        c.moves_to(input, squeezed, later),
    ensures
        c.after_limiter(squeezed) == input,
        later == (VoiceChain { peak_meter: later.peak_meter, ..c }),
        later.peak_meter.peak == peak_after(c.peak_meter.peak, input),
{
}

/// The default settings are the parameters of a new chain.
pub proof fn law_defaults_match_the_processors<M: Elementary>(m: &M, c: VoiceChain, s: Settings)
    requires
        c.is_new(m),
        s.is_default(),
    ensures
        is_linear(m, s.gain_db, c.gain.gain_linear),
        s.high_pass_cutoff_hz == c.high_pass.cutoff_hz,
        s.gate_threshold_db == c.gate.threshold_db,
        s.gate_attack_ms == c.gate.attack_ms,
        s.gate_release_ms == c.gate.release_ms,
        s.gate_hold_ms == c.gate.hold_ms,
        s.compressor_threshold_db == c.compressor.threshold_db,
        s.compressor_ratio == c.compressor.ratio,
        s.compressor_attack_ms == c.compressor.attack_ms,
        s.compressor_release_ms == c.compressor.release_ms,
        s.compressor_makeup_db == c.compressor.makeup_db,
        s.limiter_ceiling_db == c.limiter.ceiling_db,
        s.limiter_release_ms == c.limiter.release_ms,
        forall|i: int|
            0 <= i < 4 ==> {
                &&& (#[trigger] c.eq.bands@[i]).freq_hz == s.eq_band_freq_hz@[i]
                &&& c.eq.bands@[i].gain_db == s.eq_band_gain_db@[i]
                &&& c.eq.bands@[i].q == s.eq_band_q@[i]
            },
        s.gain_enabled == c.gain_enabled,
        s.high_pass_enabled == c.high_pass_enabled,
        s.eq_enabled == c.eq_enabled,
        s.gate_enabled == c.gate_enabled,
        s.compressor_enabled == c.compressor_enabled,
        s.limiter_enabled == c.limiter_enabled,
{
}

} // verus!
