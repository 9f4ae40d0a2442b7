//! The compressor.
use vstd::prelude::*;

use super::gain::SmoothedValue;
use super::level::{
    db_to_linear, is_coeff, is_level, is_linear, linear_to_db, ramp, smooth, time_to_coeff,
    Elementary, Processor,
};
use crate::numbers::{MINUS_EIGHTEEN, TEN, THREE, TWENTY, TWO_HUNDRED};
use crate::single::Single;

verus! {

/// Feed-forward compressor with peak level detection.
///
/// Reduces gain when the input level exceeds `threshold_db`. The amount of reduction is
/// controlled by `ratio`: at 4:1, a signal 4 dB above the threshold comes out only 1 dB above
/// it.
#[derive(Clone, Copy, Debug)]
pub struct Compressor {
    pub threshold_db: Single,
    /// Compression ratio (e.g. 4 for 4:1). Values below 1 expand.
    pub ratio: Single,
    pub attack_ms: Single,
    pub release_ms: Single,
    /// Output makeup gain in dB, applied after compression.
    pub makeup_db: Single,
    // Computed in prepare()
    pub attack_coeff: Single,
    pub release_coeff: Single,
    pub makeup: SmoothedValue,
    // State
    pub envelope: Single,
}

/// The gain reduction for a level: what exceeds the threshold, less one over the ratio of it.
pub open spec fn spec_gain_reduction_db(
    threshold_db: Single,
    ratio: Single,
    env_db: Single,
) -> Single {
    if env_db.gt(threshold_db) {
        env_db.minus(threshold_db).times(Single::one().minus(Single::one().over(ratio)))
    } else {
        Single::zero()
    }
}

/// The gain reduction for a level: what exceeds the threshold, less one over the ratio of it.
#[verifier::when_used_as_spec(spec_gain_reduction_db)]
pub fn gain_reduction_db(threshold_db: Single, ratio: Single, env_db: Single) -> (r: Single)
    ensures
        r == spec_gain_reduction_db(threshold_db, ratio, env_db),
{
    if env_db.gt(threshold_db) {
        env_db.minus(threshold_db).times(Single::one().minus(Single::one().over(ratio)))
    } else {
        Single::zero()
    }
}

impl Compressor {
    /// The envelope after one more sample.
    pub open spec fn next_envelope(self, envelope: Single, x: Single) -> Single {
        let coeff = if x.abs().gt(envelope) {
            self.attack_coeff
        } else {
            self.release_coeff
        };
        smooth(coeff, envelope, x.abs())
    }

    /// The envelope after a block.
    pub open spec fn envelope_after(self, input: Seq<Single>) -> Single
        decreases input.len(),
    {
        if input.len() == 0 {
            self.envelope
        } else {
            self.next_envelope(self.envelope_after(input.drop_last()), input.last())
        }
    }

    /// The compressor after a block.
    pub open spec fn after(self, input: Seq<Single>) -> Compressor {
        Compressor {
            envelope: self.envelope_after(input),
            makeup: SmoothedValue { current: self.makeup.at(input.len()), ..self.makeup },
            ..self
        }
    }

    /// `factor` is the gain that the host gives for an envelope: the reduction for the
    /// envelope's level, as a linear amplitude.
    pub open spec fn is_factor<M: Elementary>(self, m: &M, envelope: Single, factor: Single) -> bool {
        exists|env_db: Single|
            #[trigger] is_level(m, envelope, env_db) && is_linear(
                m,
                gain_reduction_db(self.threshold_db, self.ratio, env_db).negated(),
                factor,
            )
    }

    /// `y` is the sample `x` at position `i` of a block, compressed.
    pub open spec fn compresses<M: Elementary>(
        self,
        m: &M,
        input: Seq<Single>,
        i: int,
        y: Single,
    ) -> bool {
        exists|factor: Single|
            #[trigger] self.is_factor(m, self.envelope_after(input.take(i + 1)), factor) && y
                == input[i].times(factor.times(self.makeup.at((i + 1) as nat)))
    }

    /// `output` is what the compressor makes of a block.
    pub open spec fn is_output<M: Elementary>(
        self,
        m: &M,
        input: Seq<Single>,
        output: Seq<Single>,
    ) -> bool {
        &&& output.len() == input.len()
        &&& forall|i: int|
            0 <= i < input.len() ==> self.compresses(m, input, i, #[trigger] output[i])
    }

    /// The default settings.
    pub open spec fn spec_new() -> Compressor {
        Compressor {
            threshold_db: Single::from_bits(MINUS_EIGHTEEN),
            ratio: Single::from_bits(THREE),
            attack_ms: Single::from_bits(TWENTY),
            release_ms: Single::from_bits(TWO_HUNDRED),
            makeup_db: Single::zero(),
            attack_coeff: Single::zero(),
            release_coeff: Single::zero(),
            makeup: SmoothedValue {
                current: Single::one(),
                target: Single::one(),
                coeff: Single::zero(),
            },
            envelope: Single::zero(),
        }
    }

    /// A compressor with the default settings.
    #[verifier::when_used_as_spec(spec_new)]
    pub fn new() -> (r: Compressor)
        ensures
            r == Compressor::spec_new(),
    {
        Compressor {
            threshold_db: Single::from_bits(MINUS_EIGHTEEN),
            ratio: Single::from_bits(THREE),
            attack_ms: Single::from_bits(TWENTY),
            release_ms: Single::from_bits(TWO_HUNDRED),
            makeup_db: Single::zero(),
            attack_coeff: Single::zero(),
            release_coeff: Single::zero(),
            makeup: SmoothedValue::new(Single::one()),
            envelope: Single::zero(),
        }
    }

    /// The coefficients and the makeup gain to go to are those of the parameters at a sample
    /// rate.
    pub open spec fn tuned<M: Elementary>(self, m: &M, sample_rate: Single) -> bool {
        &&& is_coeff(m, self.attack_ms, sample_rate, self.attack_coeff)
        &&& is_coeff(m, self.release_ms, sample_rate, self.release_coeff)
        &&& is_coeff(m, Single::from_bits(TEN), sample_rate, self.makeup.coeff)
        &&& is_linear(m, self.makeup_db, self.makeup.target)
    }

    /// Makes changed parameters take effect while streaming: the makeup gain ramps to its new
    /// value.
    pub fn retune<M: Elementary>(&mut self, m: &M, sample_rate: Single)
        ensures
            final(self).tuned(m, sample_rate),
            final(self).same_but_tuning(*old(self)),
            final(self).makeup.current == old(self).makeup.current,
    {
        self.attack_coeff = time_to_coeff(m, self.attack_ms, sample_rate);
        self.release_coeff = time_to_coeff(m, self.release_ms, sample_rate);
        self.makeup.prepare(m, Single::from_bits(TEN), sample_rate);
        let makeup: Single = db_to_linear(m, self.makeup_db);
        self.makeup.set(makeup);
    }

    /// The two compressors have the same parameters and the same envelope.
    pub open spec fn same_but_tuning(self, other: Compressor) -> bool {
        &&& self.threshold_db == other.threshold_db
        &&& self.ratio == other.ratio
        &&& self.attack_ms == other.attack_ms
        &&& self.release_ms == other.release_ms
        &&& self.makeup_db == other.makeup_db
        &&& self.envelope == other.envelope
    }
}

impl Default for Compressor {
    fn default() -> (r: Compressor)
        ensures
            r == Compressor::spec_new(),
    {
        Compressor::new()
    }
}

impl Processor for Compressor {
    fn prepare<M: Elementary>(&mut self, m: &M, sample_rate: Single, max_block_size: usize)
        ensures
            final(self).tuned(m, sample_rate),
            final(self).makeup.current == final(self).makeup.target,
            final(self).same_but_tuning(*old(self)),
    {
        self.retune(m, sample_rate);
        let makeup: Single = self.makeup.target;
        self.makeup.snap(makeup);
    }

    fn process<M: Elementary>(&mut self, m: &M, buffer: &mut [Single])
        ensures
            old(self).is_output(m, old(buffer)@, final(buffer)@),
            *final(self) == old(self).after(old(buffer)@),
    {
        let ghost input = buffer@;
        let ghost start = *self;
        let n: usize = buffer.len();
        let mut i: usize = 0;
        assert(input.take(0) =~= Seq::<Single>::empty());
        while i < n
            invariant
                n == input.len(),
                buffer@.len() == n,
                i <= n,
                *self == start.after(input.take(i as int)),
                forall|j: int| i <= j < n ==> buffer@[j] == input[j],
                forall|j: int| 0 <= j < i ==> start.compresses(m, input, j, #[trigger] buffer@[j]),
            decreases n - i,
        {
            let x: Single = buffer[i];
            let abs: Single = x.abs();
            let coeff: Single = if abs.gt(self.envelope) {
                self.attack_coeff
            } else {
                self.release_coeff
            };
            self.envelope = smooth(coeff, self.envelope, abs);
            proof {
                assert(input.take(i + 1).drop_last() =~= input.take(i as int));
                assert(self.envelope == start.envelope_after(input.take(i + 1)));
                reveal_with_fuel(ramp, 2);
            }
            let env_db: Single = linear_to_db(m, self.envelope);
            let reduction: Single = gain_reduction_db(self.threshold_db, self.ratio, env_db);
            let factor: Single = db_to_linear(m, reduction.negated());
            assert(start.is_factor(m, start.envelope_after(input.take(i + 1)), factor));
            let makeup: Single = self.makeup.next();
            buffer[i] = x.times(factor.times(makeup));
            assert(start.compresses(m, input, i as int, buffer@[i as int]));
            i = i + 1;
        }
        assert(input.take(n as int) =~= input);
    }

    fn reset(&mut self)
        ensures
            *final(self) == (Compressor { envelope: Single::zero(), ..*old(self) }),
    {
        self.envelope = Single::zero();
    }
}

} // verus!
