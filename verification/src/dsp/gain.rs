//! Smoothed parameters and the gain stage.
use vstd::prelude::*;

use super::level::{
    db_to_linear, is_coeff, is_level, is_linear, linear_to_db, ramp, smooth, time_to_coeff,
    Elementary, Processor,
};
use crate::numbers::TEN;
use crate::single::Single;

verus! {

/// One-pole parameter smoother.
///
/// Set a target with `set()`; call `next()` once per sample for the smoothed value. `snap()`
/// jumps at once.
#[derive(Clone, Copy, Debug)]
pub struct SmoothedValue {
    pub current: Single,
    pub target: Single,
    pub coeff: Single,
}

impl SmoothedValue {
    /// The value after `n` further steps.
    pub open spec fn at(self, n: nat) -> Single {
        ramp(self.coeff, self.current, self.target, n)
    }

    /// A parameter that stands at `value` and does not smooth yet.
    pub fn new(value: Single) -> (r: SmoothedValue)
        ensures
            r == (SmoothedValue { current: value, target: value, coeff: Single::zero() }),
    {
        SmoothedValue { current: value, target: value, coeff: Single::zero() }
    }

    /// Sets the smoothing time.
    pub fn prepare<M: Elementary>(&mut self, m: &M, smooth_ms: Single, sample_rate: Single)
        ensures
            final(self).current == old(self).current,
            final(self).target == old(self).target,
            is_coeff(m, smooth_ms, sample_rate, final(self).coeff),
    {
        self.coeff = time_to_coeff(m, smooth_ms, sample_rate);
    }

    /// Sets the value to move towards.
    pub fn set(&mut self, value: Single)
        ensures
            *final(self) == (SmoothedValue { target: value, ..*old(self) }),
    {
        self.target = value;
    }

    /// Jumps to a value.
    pub fn snap(&mut self, value: Single)
        ensures
            *final(self) == (SmoothedValue { target: value, current: value, ..*old(self) }),
    {
        self.target = value;
        self.current = value;
    }

    /// Takes one step towards the target.
    pub fn next(&mut self) -> (r: Single)
        ensures
            r == old(self).at(1),
            *final(self) == (SmoothedValue { current: r, ..*old(self) }),
    {
        proof {
            reveal_with_fuel(ramp, 2);
        }
        self.current = smooth(self.coeff, self.current, self.target);
        self.current
    }
}

/// Gain stage with parameter smoothing.
///
/// When `set_db()` is called mid-stream the gain ramps to the new value over `smooth_ms`
/// milliseconds rather than jumping, which prevents audible clicks.
#[derive(Clone, Copy, Debug)]
pub struct Gain {
    /// Target gain in linear scale (set via `set_db`).
    pub gain_linear: Single,
    /// Current smoothed gain: this is what multiplies samples.
    pub current_linear: Single,
    /// Time in ms for the gain to come about 63% of the way to a new target.
    pub smooth_ms: Single,
    pub smooth_coeff: Single,
}

impl Gain {
    /// The smoothed gain after `n` further samples.
    pub open spec fn level_at(self, n: nat) -> Single {
        ramp(self.smooth_coeff, self.current_linear, self.gain_linear, n)
    }

    /// What the stage makes of a block.
    pub open spec fn output(self, input: Seq<Single>) -> Seq<Single> {
        Seq::new(input.len(), |i: int| input[i].times(self.level_at((i + 1) as nat)))
    }

    /// The stage after a block.
    pub open spec fn after(self, input: Seq<Single>) -> Gain {
        Gain { current_linear: self.level_at(input.len()), ..self }
    }

    /// A stage that stands at the given gain.
    pub fn new<M: Elementary>(m: &M, db: Single) -> (r: Gain)
        ensures
            is_linear(m, db, r.gain_linear),
            r.current_linear == r.gain_linear,
            r.smooth_ms == Single::from_bits(TEN),
            r.smooth_coeff == Single::zero(),
    {
        let lin: Single = db_to_linear(m, db);
        Gain {
            gain_linear: lin,
            current_linear: lin,
            smooth_ms: Single::from_bits(TEN),
            smooth_coeff: Single::zero(),
        }
    }

    /// Sets the gain to ramp to.
    pub fn set_db<M: Elementary>(&mut self, m: &M, db: Single)
        ensures
            is_linear(m, db, final(self).gain_linear),
            *final(self) == (Gain { gain_linear: final(self).gain_linear, ..*old(self) }),
    {
        self.gain_linear = db_to_linear(m, db);
    }

    /// The gain that is ramped to.
    pub fn get_db<M: Elementary>(&self, m: &M) -> (r: Single)
        ensures
            is_level(m, self.gain_linear, r),
    {
        linear_to_db(m, self.gain_linear)
    }
}

impl Processor for Gain {
    fn prepare<M: Elementary>(&mut self, m: &M, sample_rate: Single, max_block_size: usize)
        ensures
            is_coeff(m, old(self).smooth_ms, sample_rate, final(self).smooth_coeff),
            *final(self) == (Gain {
                smooth_coeff: final(self).smooth_coeff,
                current_linear: old(self).gain_linear,
                ..*old(self)
            }),
    {
        self.smooth_coeff = time_to_coeff(m, self.smooth_ms, sample_rate);
        // Start at the target rather than ramp in from whatever came before.
        self.current_linear = self.gain_linear;
    }

    fn process<M: Elementary>(&mut self, m: &M, buffer: &mut [Single])
        ensures
            final(buffer)@ == old(self).output(old(buffer)@),
            *final(self) == old(self).after(old(buffer)@),
    {
        let ghost input = buffer@;
        let ghost start = *self;
        let n: usize = buffer.len();
        let mut i: usize = 0;
        while i < n
            invariant
                n == input.len(),
                buffer@.len() == n,
                i <= n,
                *self == (Gain { current_linear: start.level_at(i as nat), ..start }),
                forall|j: int| i <= j < n ==> buffer@[j] == input[j],
                forall|j: int| 0 <= j < i ==> buffer@[j] == start.output(input)[j],
            decreases n - i,
        {
            self.current_linear = smooth(self.smooth_coeff, self.current_linear, self.gain_linear);
            let x: Single = buffer[i];
            buffer[i] = x.times(self.current_linear);
            i = i + 1;
        }
        assert(buffer@ =~= start.output(input));
    }

    fn reset(&mut self)
        ensures
            *final(self) == (Gain { current_linear: old(self).gain_linear, ..*old(self) }),
    {
        self.current_linear = self.gain_linear;
    }
}

} // verus!
