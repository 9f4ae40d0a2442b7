//! The noise gate.
use vstd::prelude::*;

use super::level::{
    db_to_linear, is_coeff, is_linear, smooth, time_to_coeff, Elementary, Processor,
};
use crate::numbers::{
    FIVE, HALF, HUNDRED, HUNDRED_FIFTY, MINUS_FORTY, THOUSANDTH, TWENTY,
};
use crate::single::Single;

verus! {

/// Noise gate. Attenuates the signal when it falls below `threshold_db`.
///
/// A fast peak envelope follower measures the level; a separate gain smoother opens and closes
/// the noise gate with attack, hold and release times, to avoid clicks and chattering.
#[derive(Clone, Copy, Debug)]
pub struct Gate {
    pub threshold_db: Single,
    /// How fast the noise gate opens once the signal exceeds the threshold (ms).
    pub attack_ms: Single,
    /// How fast the noise gate closes after the hold time expires (ms).
    pub release_ms: Single,
    /// How long the noise gate stays open after the signal drops below the threshold (ms).
    pub hold_ms: Single,
    // Computed in prepare()
    pub threshold_linear: Single,
    pub env_attack_coeff: Single,
    pub env_release_coeff: Single,
    pub gain_attack_coeff: Single,
    pub gain_release_coeff: Single,
    pub hold_samples: usize,
    // State
    pub envelope: Single,
    pub gain: Single,
    pub hold_counter: usize,
}

impl Gate {
    /// The envelope after one more sample: quick to rise, slower to fall.
    pub open spec fn next_envelope(self, x: Single) -> Single {
        let coeff = if x.abs().gt(self.envelope) {
            self.env_attack_coeff
        } else {
            self.env_release_coeff
        };
        smooth(coeff, self.envelope, x.abs())
    }

    /// The sample brings the envelope to the threshold.
    pub open spec fn triggers(self, x: Single) -> bool {
        self.next_envelope(x).ge(self.threshold_linear)
    }

    /// The noise gate is to be open at this sample: the signal is loud, or it was within the hold
    /// time.
    pub open spec fn opens(self, x: Single) -> bool {
        self.triggers(x) || self.hold_counter > 0
    }

    /// The gain after one more sample.
    pub open spec fn next_gain(self, x: Single) -> Single {
        let target = if self.opens(x) {
            Single::one()
        } else {
            Single::zero()
        };
        let coeff = if target.gt(self.gain) {
            self.gain_attack_coeff
        } else {
            self.gain_release_coeff
        };
        smooth(coeff, self.gain, target)
    }

    /// The hold time left after one more sample.
    pub open spec fn next_hold(self, x: Single) -> usize {
        if self.triggers(x) {
            self.hold_samples
        } else if self.hold_counter > 0 {
            (self.hold_counter - 1) as usize
        } else {
            0
        }
    }

    /// The noise gate one sample later.
    pub open spec fn stepped(self, x: Single) -> Gate {
        Gate {
            envelope: self.next_envelope(x),
            gain: self.next_gain(x),
            hold_counter: self.next_hold(x),
            ..self
        }
    }

    /// The noise gate after a block.
    pub open spec fn after(self, input: Seq<Single>) -> Gate
        decreases input.len(),
    {
        if input.len() == 0 {
            self
        } else {
            self.after(input.drop_last()).stepped(input.last())
        }
    }

    /// What the noise gate makes of a block.
    pub open spec fn output(self, input: Seq<Single>) -> Seq<Single> {
        Seq::new(input.len(), |i: int| input[i].times(self.after(input.take(i + 1)).gain))
    }

    /// A closed gate with the default settings.
    pub open spec fn spec_new() -> Gate {
        Gate {
            threshold_db: Single::from_bits(MINUS_FORTY),
            attack_ms: Single::from_bits(FIVE),
            release_ms: Single::from_bits(HUNDRED_FIFTY),
            hold_ms: Single::from_bits(HUNDRED),
            threshold_linear: Single::zero(),
            env_attack_coeff: Single::zero(),
            env_release_coeff: Single::zero(),
            gain_attack_coeff: Single::zero(),
            gain_release_coeff: Single::zero(),
            hold_samples: 0,
            envelope: Single::zero(),
            gain: Single::zero(),
            hold_counter: 0,
        }
    }

    /// A closed gate with the default settings.
    #[verifier::when_used_as_spec(spec_new)]
    pub fn new() -> (r: Gate)
        ensures
            r == Gate::spec_new(),
    {
        Gate {
            threshold_db: Single::from_bits(MINUS_FORTY),
            attack_ms: Single::from_bits(FIVE),
            release_ms: Single::from_bits(HUNDRED_FIFTY),
            hold_ms: Single::from_bits(HUNDRED),
            threshold_linear: Single::zero(),
            env_attack_coeff: Single::zero(),
            env_release_coeff: Single::zero(),
            gain_attack_coeff: Single::zero(),
            gain_release_coeff: Single::zero(),
            hold_samples: 0,
            envelope: Single::zero(),
            gain: Single::zero(),
            hold_counter: 0,
        }
    }

    /// Follows one sample.
    fn step(&mut self, x: Single)
        ensures
            *final(self) == old(self).stepped(x),
    {
        let abs: Single = x.abs();
        let env_coeff: Single = if abs.gt(self.envelope) {
            self.env_attack_coeff
        } else {
            self.env_release_coeff
        };
        self.envelope = smooth(env_coeff, self.envelope, abs);
        let target: Single = if self.envelope.ge(self.threshold_linear) {
            self.hold_counter = self.hold_samples;
            Single::one()
        } else if self.hold_counter > 0 {
            self.hold_counter = self.hold_counter - 1;
            Single::one()
        } else {
            Single::zero()
        };
        let gain_coeff: Single = if target.gt(self.gain) {
            self.gain_attack_coeff
        } else {
            self.gain_release_coeff
        };
        self.gain = smooth(gain_coeff, self.gain, target);
    }

    /// The coefficients are those of the parameters at a sample rate. The envelope follower has
    /// fixed times of its own, half a millisecond up and twenty down.
    pub open spec fn tuned<M: Elementary>(self, m: &M, sample_rate: Single) -> bool {
        &&& is_linear(m, self.threshold_db, self.threshold_linear)
        &&& is_coeff(m, Single::from_bits(HALF), sample_rate, self.env_attack_coeff)
        &&& is_coeff(m, Single::from_bits(TWENTY), sample_rate, self.env_release_coeff)
        &&& is_coeff(m, self.attack_ms, sample_rate, self.gain_attack_coeff)
        &&& is_coeff(m, self.release_ms, sample_rate, self.gain_release_coeff)
        &&& self.hold_samples == self.hold_ms.times(Single::from_bits(THOUSANDTH)).times(
            sample_rate,
        ).to_usize()
    }

    /// The two gates have the same parameters and are in the same state.
    pub open spec fn same_but_tuning(self, other: Gate) -> bool {
        &&& self.threshold_db == other.threshold_db
        &&& self.attack_ms == other.attack_ms
        &&& self.release_ms == other.release_ms
        &&& self.hold_ms == other.hold_ms
        &&& self.envelope == other.envelope
        &&& self.gain == other.gain
        &&& self.hold_counter == other.hold_counter
    }
}

impl Default for Gate {
    fn default() -> (r: Gate)
        ensures
            r == Gate::spec_new(),
    {
        Gate::new()
    }
}

impl Processor for Gate {
    fn prepare<M: Elementary>(&mut self, m: &M, sample_rate: Single, max_block_size: usize)
        ensures
            final(self).tuned(m, sample_rate),
            final(self).same_but_tuning(*old(self)),
    {
        self.threshold_linear = db_to_linear(m, self.threshold_db);
        // The envelope follower has fixed fast times, so that it tracks peaks tightly without
        // adding its own smearing on top of the times below.
        self.env_attack_coeff = time_to_coeff(m, Single::from_bits(HALF), sample_rate);
        self.env_release_coeff = time_to_coeff(m, Single::from_bits(TWENTY), sample_rate);
        self.gain_attack_coeff = time_to_coeff(m, self.attack_ms, sample_rate);
        self.gain_release_coeff = time_to_coeff(m, self.release_ms, sample_rate);
        self.hold_samples =
            self.hold_ms.times(Single::from_bits(THOUSANDTH)).times(sample_rate).to_usize();
    }

    fn process<M: Elementary>(&mut self, m: &M, buffer: &mut [Single])
        ensures
            final(buffer)@ == old(self).output(old(buffer)@),
            *final(self) == old(self).after(old(buffer)@),
    {
        let ghost input = buffer@;
        let ghost start = *self;
        let n: usize = buffer.len();
        let mut i: usize = 0;
        assert(input.take(0) =~= Seq::<Single>::empty());
        while i < n
            invariant
                n == input.len(),
                buffer@.len() == n,
                i <= n,
                *self == start.after(input.take(i as int)),
                forall|j: int| i <= j < n ==> buffer@[j] == input[j],
                forall|j: int| 0 <= j < i ==> buffer@[j] == start.output(input)[j],
            decreases n - i,
        {
            let x: Single = buffer[i];
            self.step(x);
            proof {
                assert(input.take(i + 1).drop_last() =~= input.take(i as int));
            }
            buffer[i] = x.times(self.gain);
            i = i + 1;
        }
        assert(input.take(n as int) =~= input);
        assert(buffer@ =~= start.output(input));
    }

    fn reset(&mut self)
        ensures
            *final(self) == (Gate {
                envelope: Single::zero(),
                gain: Single::zero(),
                hold_counter: 0,
                ..*old(self)
            }),
    {
        self.envelope = Single::zero();
        self.gain = Single::zero();
        self.hold_counter = 0;
    }
}

} // verus!
