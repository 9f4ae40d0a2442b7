//! Levels, time constants, and what every processor shares.
use vstd::prelude::*;

use crate::numbers::{MINUS_INF_DB, THOUSANDTH, TWENTY};
use crate::single::Single;

verus! {

/// The elementary functions of single-precision numbers, as the host machine computes them.
///
/// Nothing is presumed of their results: they differ from machine to machine in the last
/// places. Contracts say instead which function was asked about which number, and what was made
/// of the answer.
pub trait Elementary {
    /// The sine of an angle in radians.
    fn sin(&self, x: Single) -> Single;

    /// The cosine of an angle in radians.
    fn cos(&self, x: Single) -> Single;

    /// The exponential function.
    fn exp(&self, x: Single) -> Single;

    /// Ten to the given power.
    fn power_of_ten(&self, x: Single) -> Single;

    /// The decimal logarithm.
    fn log10(&self, x: Single) -> Single;

    /// The square root.
    fn sqrt(&self, x: Single) -> Single;
}

/// Common lifecycle for all processors.
pub trait Processor {
    /// Called before streaming begins: computes coefficients for the sample rate.
    fn prepare<M: Elementary>(&mut self, m: &M, sample_rate: Single, max_block_size: usize);

    /// Processes a block of mono samples in place.
    fn process<M: Elementary>(&mut self, m: &M, buffer: &mut [Single]);

    /// Resets the running state (history, envelopes, filters).
    fn reset(&mut self);
}

/// `r` is what the host makes of `db` as a linear amplitude: ten to the power `db / 20`.
pub open spec fn is_linear<M: Elementary>(m: &M, db: Single, r: Single) -> bool {
    call_ensures(M::power_of_ten, (m, db.over(Single::from_bits(TWENTY))), r)
}

/// `r` is what the host makes of a linear amplitude as a level in dB: twenty times its decimal
/// logarithm, and the level of silence for zero and negative amplitudes.
pub open spec fn is_level<M: Elementary>(m: &M, linear: Single, r: Single) -> bool {
    if linear.le(Single::zero()) {
        r == Single::from_bits(MINUS_INF_DB)
    } else {
        exists|l: Single|
            #[trigger] call_ensures(M::log10, (m, linear), l) && r == Single::from_bits(
                TWENTY,
            ).times(l)
    }
}

/// The exponent of a smoothing coefficient: minus one over the time in samples.
pub open spec fn coeff_exponent(time_ms: Single, sample_rate: Single) -> Single {
    Single::one().negated().over(
        time_ms.times(Single::from_bits(THOUSANDTH)).times(sample_rate),
    )
}

/// `r` is what the host makes of a time constant as a one-pole smoothing coefficient; none for
/// times that are not positive.
pub open spec fn is_coeff<M: Elementary>(
    m: &M,
    time_ms: Single,
    sample_rate: Single,
    r: Single,
) -> bool {
    if time_ms.le(Single::zero()) {
        r == Single::zero()
    } else {
        call_ensures(M::exp, (m, coeff_exponent(time_ms, sample_rate)), r)
    }
}

/// One step of one-pole smoothing from `current` towards `target`.
pub open spec fn spec_smooth(coeff: Single, current: Single, target: Single) -> Single {
    coeff.times(current).plus(Single::one().minus(coeff).times(target))
}

/// One step of one-pole smoothing from `current` towards `target`.
#[verifier::when_used_as_spec(spec_smooth)]
pub fn smooth(coeff: Single, current: Single, target: Single) -> (r: Single)
    ensures
        r == spec_smooth(coeff, current, target),
{
    coeff.times(current).plus(Single::one().minus(coeff).times(target))
}

/// Where one-pole smoothing towards a fixed target stands after `n` steps.
pub open spec fn ramp(coeff: Single, current: Single, target: Single, n: nat) -> Single
    decreases n,
{
    if n == 0 {
        current
    } else {
        smooth(coeff, ramp(coeff, current, target, (n - 1) as nat), target)
    }
}

/// Converts a linear amplitude to dB. Zero and negative amplitudes give -120 dB.
pub fn linear_to_db<M: Elementary>(m: &M, linear: Single) -> (r: Single)
    ensures
        is_level(m, linear, r),
{
    if linear.le(Single::zero()) {
        Single::from_bits(MINUS_INF_DB)
    } else {
        let l: Single = m.log10(linear);
        Single::from_bits(TWENTY).times(l)
    }
}

/// Converts dB to a linear amplitude multiplier.
pub fn db_to_linear<M: Elementary>(m: &M, db: Single) -> (r: Single)
    ensures
        is_linear(m, db, r),
{
    m.power_of_ten(db.over(Single::from_bits(TWENTY)))
}

/// Computes a one-pole smoothing coefficient.
///
/// It is used as `y = coeff * y_prev + (1 - coeff) * target`; after `time_ms` milliseconds the
/// output has come about 63% of the way.
pub fn time_to_coeff<M: Elementary>(m: &M, time_ms: Single, sample_rate: Single) -> (r: Single)
    ensures
        is_coeff(m, time_ms, sample_rate, r),
{
    if time_ms.le(Single::zero()) {
        return Single::zero();
    }
    let samples: Single = time_ms.times(Single::from_bits(THOUSANDTH)).times(sample_rate);
    m.exp(Single::one().negated().over(samples))
}

} // verus!
