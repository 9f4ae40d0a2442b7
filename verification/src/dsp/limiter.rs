//! The limiter.
use vstd::prelude::*;

use super::gain::SmoothedValue;
use super::level::{
    db_to_linear, is_coeff, is_linear, ramp, smooth, time_to_coeff, Elementary, Processor,
};
use crate::numbers::{FIFTY, MINUS_ONE, TEN};
use crate::single::Single;

verus! {

/// Brick-wall peak limiter.
///
/// Prevents the output from exceeding `ceiling_db`. The gain is reduced at once when a peak is
/// detected, and recovers gradually.
#[derive(Clone, Copy, Debug)]
pub struct Limiter {
    pub ceiling_db: Single,
    pub release_ms: Single,
    // Computed in prepare()
    pub ceiling: SmoothedValue,
    pub release_coeff: Single,
    // State
    pub gain: Single,
}

/// The gain that brings a sample down to the ceiling; one for samples that do not exceed it.
pub open spec fn spec_target_gain(ceiling: Single, x: Single) -> Single {
    if x.abs().gt(ceiling) {
        ceiling.over(x.abs())
    } else {
        Single::one()
    }
}

/// The gain that brings a sample down to the ceiling; one for samples that do not exceed it.
#[verifier::when_used_as_spec(spec_target_gain)]
pub fn target_gain(ceiling: Single, x: Single) -> (r: Single)
    ensures
        r == spec_target_gain(ceiling, x),
{
    let abs: Single = x.abs();
    if abs.gt(ceiling) {
        ceiling.over(abs)
    } else {
        Single::one()
    }
}

/// The gain one sample later: down at once, up gradually.
pub open spec fn spec_next_gain(release_coeff: Single, gain: Single, target: Single) -> Single {
    if target.lt(gain) {
        target
    } else {
        smooth(release_coeff, gain, target)
    }
}

/// The gain one sample later: down at once, up gradually.
#[verifier::when_used_as_spec(spec_next_gain)]
pub fn next_gain(release_coeff: Single, gain: Single, target: Single) -> (r: Single)
    ensures
        r == spec_next_gain(release_coeff, gain, target),
{
    if target.lt(gain) {
        target
    } else {
        smooth(release_coeff, gain, target)
    }
}

impl Limiter {
    /// The ceiling at position `i` of a block.
    pub open spec fn ceiling_at(self, i: int) -> Single {
        self.ceiling.at((i + 1) as nat)
    }

    /// The gain after a block.
    pub open spec fn gain_after(self, input: Seq<Single>) -> Single
        decreases input.len(),
    {
        if input.len() == 0 {
            self.gain
        } else {
            next_gain(
                self.release_coeff,
                self.gain_after(input.drop_last()),
                target_gain(self.ceiling_at(input.len() - 1), input.last()),
            )
        }
    }

    /// What the limiter makes of a block.
    pub open spec fn output(self, input: Seq<Single>) -> Seq<Single> {
        Seq::new(input.len(), |i: int| input[i].times(self.gain_after(input.take(i + 1))))
    }

    /// The limiter after a block.
    pub open spec fn after(self, input: Seq<Single>) -> Limiter {
        Limiter {
            ceiling: SmoothedValue { current: self.ceiling.at(input.len()), ..self.ceiling },
            gain: self.gain_after(input),
            ..self
        }
    }

    /// A limiter with the default settings.
    pub fn new<M: Elementary>(m: &M) -> (r: Limiter)
        ensures
            r.ceiling_db == Single::from_bits(MINUS_ONE),
            r.release_ms == Single::from_bits(FIFTY),
            is_linear(m, Single::from_bits(MINUS_ONE), r.ceiling.target),
            r.ceiling.current == r.ceiling.target,
            r.ceiling.coeff == Single::zero(),
            r.release_coeff == Single::zero(),
            r.gain == Single::one(),
    {
        Limiter {
            ceiling_db: Single::from_bits(MINUS_ONE),
            release_ms: Single::from_bits(FIFTY),
            ceiling: SmoothedValue::new(db_to_linear(m, Single::from_bits(MINUS_ONE))),
            release_coeff: Single::zero(),
            gain: Single::one(),
        }
    }

    /// The coefficients are those of the parameters at a sample rate, and the ceiling stands at
    /// its target.
    pub open spec fn tuned<M: Elementary>(self, m: &M, sample_rate: Single) -> bool {
        &&& is_coeff(m, Single::from_bits(TEN), sample_rate, self.ceiling.coeff)
        &&& is_linear(m, self.ceiling_db, self.ceiling.target)
        &&& self.ceiling.current == self.ceiling.target
        &&& is_coeff(m, self.release_ms, sample_rate, self.release_coeff)
    }

    /// The two limiters have the same parameters and the same gain.
    pub open spec fn same_but_tuning(self, other: Limiter) -> bool {
        &&& self.ceiling_db == other.ceiling_db
        &&& self.release_ms == other.release_ms
        &&& self.gain == other.gain
    }
}

impl Processor for Limiter {
    fn prepare<M: Elementary>(&mut self, m: &M, sample_rate: Single, max_block_size: usize)
        ensures
            final(self).tuned(m, sample_rate),
            final(self).same_but_tuning(*old(self)),
    {
        self.ceiling.prepare(m, Single::from_bits(TEN), sample_rate);
        let ceiling: Single = db_to_linear(m, self.ceiling_db);
        self.ceiling.snap(ceiling);
        self.release_coeff = time_to_coeff(m, self.release_ms, sample_rate);
    }

    fn process<M: Elementary>(&mut self, m: &M, buffer: &mut [Single])
        ensures
            final(buffer)@ == old(self).output(old(buffer)@),
            *final(self) == old(self).after(old(buffer)@),
    {
        let ghost input = buffer@;
        let ghost start = *self;
        let n: usize = buffer.len();
        let mut i: usize = 0;
        assert(input.take(0) =~= Seq::<Single>::empty());
        while i < n
            invariant
                n == input.len(),
                buffer@.len() == n,
                i <= n,
                *self == start.after(input.take(i as int)),
                forall|j: int| i <= j < n ==> buffer@[j] == input[j],
                forall|j: int| 0 <= j < i ==> buffer@[j] == start.output(input)[j],
            decreases n - i,
        {
            let x: Single = buffer[i];
            proof {
                assert(input.take(i + 1).drop_last() =~= input.take(i as int));
                reveal_with_fuel(ramp, 2);
            }
            let ceiling: Single = self.ceiling.next();
            self.gain = next_gain(self.release_coeff, self.gain, target_gain(ceiling, x));
            buffer[i] = x.times(self.gain);
            i = i + 1;
        }
        assert(input.take(n as int) =~= input);
        assert(buffer@ =~= start.output(input));
    }

    fn reset(&mut self)
        ensures
            *final(self) == (Limiter { gain: Single::one(), ..*old(self) }),
    {
        self.gain = Single::one();
    }
}

} // verus!
