//! The complete voice chain.
use vstd::prelude::*;

use super::biquad::{is_high_pass, HighPass, History, Taps};
use super::compressor::Compressor;
use super::eq::{bands_output, fresh_band, BandKind, EqBand};
use super::gain::Gain;
use super::gate::Gate;
use super::level::{is_coeff, is_linear, Elementary, Processor};
use super::limiter::Limiter;
use super::meter::{peak_after, PeakMeter};
use crate::numbers::{
    EIGHTY, EIGHT_THOUSAND, FIFTY, FORTY_EIGHT_THOUSAND, HUNDRED_TWENTY, MINUS_ONE, SEVEN_TENTHS,
    SHELF_Q, TEN, THREE_HUNDRED, THREE_THOUSAND,
};
use crate::single::Single;
use crate::state::Settings;

verus! {

/// Complete voice processing chain.
///
/// Signal order:
///   gain, high_pass, eq, gate, compressor, limiter, peak_meter
#[derive(Clone, Debug)]
pub struct VoiceChain {
    pub gain: Gain,
    pub high_pass: HighPass,
    pub eq: crate::dsp::eq::Eq,
    pub gate: Gate,
    pub compressor: Compressor,
    pub limiter: Limiter,
    pub peak_meter: PeakMeter,
    // Per-processor bypass flags. A processor that is not enabled is skipped entirely.
    pub gain_enabled: bool,
    pub high_pass_enabled: bool,
    pub eq_enabled: bool,
    pub gate_enabled: bool,
    pub compressor_enabled: bool,
    pub limiter_enabled: bool,
    pub sample_rate: Single,
    pub max_block_size: usize,
}

impl VoiceChain {
    /// A block after the gain stage.
    pub open spec fn after_gain(self, input: Seq<Single>) -> Seq<Single> {
        if self.gain_enabled {
            self.gain.output(input)
        } else {
            input
        }
    }

    /// A block after the high-pass filter.
    pub open spec fn after_high_pass(self, input: Seq<Single>) -> Seq<Single> {
        if self.high_pass_enabled {
            self.high_pass.output(self.after_gain(input))
        } else {
            self.after_gain(input)
        }
    }

    /// A block after the equalizer.
    pub open spec fn after_eq(self, input: Seq<Single>) -> Seq<Single> {
        if self.eq_enabled {
            self.eq.output(self.after_high_pass(input))
        } else {
            self.after_high_pass(input)
        }
    }

    /// A block after the noise gate.
    pub open spec fn after_gate(self, input: Seq<Single>) -> Seq<Single> {
        if self.gate_enabled {
            self.gate.output(self.after_eq(input))
        } else {
            self.after_eq(input)
        }
    }

    /// `squeezed` is a block after the compressor.
    pub open spec fn is_after_compressor<M: Elementary>(
        self,
        m: &M,
        input: Seq<Single>,
        squeezed: Seq<Single>,
    ) -> bool {
        if self.compressor_enabled {
            self.compressor.is_output(m, self.after_gate(input), squeezed)
        } else {
            squeezed == self.after_gate(input)
        }
    }

    /// What the limiter makes of a compressed block.
    pub open spec fn after_limiter(self, squeezed: Seq<Single>) -> Seq<Single> {
        if self.limiter_enabled {
            self.limiter.output(squeezed)
        } else {
            squeezed
        }
    }

    /// `later` is the chain after a block that left the compressor as `squeezed`. Processors
    /// that are not enabled stay as they are; the meter always sees the final output.
    pub open spec fn moves_to(
        self,
        input: Seq<Single>,
        squeezed: Seq<Single>,
        later: VoiceChain,
    ) -> bool {
        &&& later.gain == if self.gain_enabled {
            self.gain.after(input)
        } else {
            self.gain
        }
        &&& later.high_pass == if self.high_pass_enabled {
            self.high_pass.after(self.after_gain(input))
        } else {
            self.high_pass
        }
        &&& if self.eq_enabled {
            self.eq.moves_to(self.after_high_pass(input), later.eq)
        } else {
            later.eq == self.eq
        }
        &&& later.gate == if self.gate_enabled {
            self.gate.after(self.after_eq(input))
        } else {
            self.gate
        }
        &&& later.compressor == if self.compressor_enabled {
            self.compressor.after(self.after_gate(input))
        } else {
            self.compressor
        }
        &&& later.limiter == if self.limiter_enabled {
            self.limiter.after(squeezed)
        } else {
            self.limiter
        }
        &&& later.peak_meter.peak == peak_after(
            self.peak_meter.peak,
            self.after_limiter(squeezed),
        )
        &&& self.same_setup(later)
    }

    /// The two chains have the same flags, sample rate and block size.
    pub open spec fn same_setup(self, other: VoiceChain) -> bool {
        &&& self.gain_enabled == other.gain_enabled
        &&& self.high_pass_enabled == other.high_pass_enabled
        &&& self.eq_enabled == other.eq_enabled
        &&& self.gate_enabled == other.gate_enabled
        &&& self.compressor_enabled == other.compressor_enabled
        &&& self.limiter_enabled == other.limiter_enabled
        &&& self.sample_rate == other.sample_rate
        &&& self.max_block_size == other.max_block_size
    }

    /// A chain as it is made: default processors, all enabled, at 48 kHz.
    pub open spec fn is_new<M: Elementary>(self, m: &M) -> bool {
        &&& is_linear(m, Single::zero(), self.gain.gain_linear)
        &&& self.gain.current_linear == self.gain.gain_linear
        &&& self.gain.smooth_ms == Single::from_bits(TEN)
        &&& self.gain.smooth_coeff == Single::zero()
        &&& self.high_pass == (HighPass {
            cutoff_hz: Single::from_bits(EIGHTY),
            taps: Taps::identity(),
            history: History::silent(),
        })
        &&& self.eq.bands@ == seq![
            fresh_band(BandKind::LowShelf, HUNDRED_TWENTY, SHELF_Q),
            fresh_band(BandKind::Peak, THREE_HUNDRED, SEVEN_TENTHS),
            fresh_band(BandKind::Peak, THREE_THOUSAND, SEVEN_TENTHS),
            fresh_band(BandKind::HighShelf, EIGHT_THOUSAND, SHELF_Q),
        ]
        &&& self.gate == Gate::new()
        &&& self.compressor == Compressor::new()
        &&& self.limiter.ceiling_db == Single::from_bits(MINUS_ONE)
        &&& self.limiter.release_ms == Single::from_bits(FIFTY)
        &&& is_linear(m, Single::from_bits(MINUS_ONE), self.limiter.ceiling.target)
        &&& self.limiter.ceiling.current == self.limiter.ceiling.target
        &&& self.limiter.ceiling.coeff == Single::zero()
        &&& self.limiter.release_coeff == Single::zero()
        &&& self.limiter.gain == Single::one()
        &&& self.peak_meter.peak == Single::zero()
        &&& self.gain_enabled && self.high_pass_enabled && self.eq_enabled
        &&& self.gate_enabled && self.compressor_enabled && self.limiter_enabled
        &&& self.sample_rate == Single::from_bits(FORTY_EIGHT_THOUSAND)
        &&& self.max_block_size == 4096
    }

    /// A chain with the default settings.
    pub fn new<M: Elementary>(m: &M) -> (r: VoiceChain)
        ensures
            r.is_new(m),
    {
        VoiceChain {
            gain: Gain::new(m, Single::zero()),
            high_pass: HighPass::new(Single::from_bits(EIGHTY)),
            eq: crate::dsp::eq::Eq::new(),
            gate: Gate::new(),
            compressor: Compressor::new(),
            limiter: Limiter::new(m),
            peak_meter: PeakMeter::new(),
            gain_enabled: true,
            high_pass_enabled: true,
            eq_enabled: true,
            gate_enabled: true,
            compressor_enabled: true,
            limiter_enabled: true,
            sample_rate: Single::from_bits(FORTY_EIGHT_THOUSAND),
            max_block_size: 4096,
        }
    }

    /// `later` is the chain prepared for a sample rate: every coefficient follows it, the
    /// smoothed parameters stand at their targets, and what runs goes on.
    pub open spec fn prepares<M: Elementary>(
        self,
        m: &M,
        sample_rate: Single,
        max_block_size: usize,
        later: VoiceChain,
    ) -> bool {
        &&& later.sample_rate == sample_rate
        &&& later.max_block_size == max_block_size
        &&& is_coeff(m, self.gain.smooth_ms, sample_rate, later.gain.smooth_coeff)
        &&& later.gain == (Gain {
            smooth_coeff: later.gain.smooth_coeff,
            current_linear: self.gain.gain_linear,
            ..self.gain
        })
        &&& is_high_pass(m, self.high_pass.cutoff_hz, sample_rate, later.high_pass.taps)
        &&& later.high_pass == (HighPass { taps: later.high_pass.taps, ..self.high_pass })
        &&& forall|i: int|
            0 <= i < 4 ==> (#[trigger] later.eq.bands@[i]).tuned(m, sample_rate)
                && later.eq.bands@[i] == (EqBand {
                taps: later.eq.bands@[i].taps,
                ..self.eq.bands@[i]
            })
        &&& later.gate.tuned(m, sample_rate)
        &&& later.gate.same_but_tuning(self.gate)
        &&& later.compressor.tuned(m, sample_rate)
        &&& later.compressor.makeup.current == later.compressor.makeup.target
        &&& later.compressor.same_but_tuning(self.compressor)
        &&& later.limiter.tuned(m, sample_rate)
        &&& later.limiter.same_but_tuning(self.limiter)
        &&& later.peak_meter == self.peak_meter
        &&& later.same_setup(
            (VoiceChain {
                sample_rate: later.sample_rate,
                max_block_size: later.max_block_size,
                ..self
            }),
        )
    }

    /// Prepares every processor for a sample rate.
    pub fn prepare<M: Elementary>(&mut self, m: &M, sample_rate: Single, max_block_size: usize)
        ensures
            old(self).prepares(m, sample_rate, max_block_size, *final(self)),
    {
        self.sample_rate = sample_rate;
        self.max_block_size = max_block_size;
        self.gain.prepare(m, sample_rate, max_block_size);
        self.high_pass.prepare(m, sample_rate, max_block_size);
        self.eq.prepare(m, sample_rate, max_block_size);
        self.gate.prepare(m, sample_rate, max_block_size);
        self.compressor.prepare(m, sample_rate, max_block_size);
        self.limiter.prepare(m, sample_rate, max_block_size);
        self.peak_meter.prepare(m, sample_rate, max_block_size);
    }

    /// A chain makes as many samples as it is given.
    pub proof fn lemma_output_len<M: Elementary>(
        self,
        m: &M,
        input: Seq<Single>,
        squeezed: Seq<Single>,
    )
        requires
            self.is_after_compressor(m, input, squeezed),
        ensures
            self.after_limiter(squeezed).len() == input.len(),
    {
        lemma_bands_len(self.eq.bands@, self.after_high_pass(input), 4);
    }

    /// Runs a block through every enabled processor, in order, and meters the result.
    pub fn process<M: Elementary>(&mut self, m: &M, buffer: &mut [Single])
        ensures
            final(buffer)@.len() == old(buffer)@.len(),
            exists|squeezed: Seq<Single>|
                {
                    &&& #[trigger] old(self).is_after_compressor(m, old(buffer)@, squeezed)
                    &&& final(buffer)@ == old(self).after_limiter(squeezed)
                    &&& old(self).moves_to(old(buffer)@, squeezed, *final(self))
                },
    {
        let ghost input = buffer@;
        let ghost start = *self;
        if self.gain_enabled {
            self.gain.process(m, buffer);
        }
        assert(buffer@ == start.after_gain(input));
        if self.high_pass_enabled {
            self.high_pass.process(m, buffer);
        }
        assert(buffer@ == start.after_high_pass(input));
        if self.eq_enabled {
            self.eq.process(m, buffer);
        }
        assert(buffer@ == start.after_eq(input));
        if self.gate_enabled {
            self.gate.process(m, buffer);
        }
        assert(buffer@ == start.after_gate(input));
        if self.compressor_enabled {
            self.compressor.process(m, buffer);
        }
        let ghost squeezed = buffer@;
        assert(start.is_after_compressor(m, input, squeezed));
        if self.limiter_enabled {
            self.limiter.process(m, buffer);
        }
        assert(buffer@ == start.after_limiter(squeezed));
        self.peak_meter.process(m, buffer);
        assert(start.moves_to(input, squeezed, *self));
        proof {
            start.lemma_output_len(m, input, squeezed);
        }
    }

    /// `later` is the chain after a reset: filters, envelopes and the meter are empty, the gain
    /// stands at its target, and the parameters are as they were.
    pub open spec fn resets(self, later: VoiceChain) -> bool {
        &&& later.gain == (Gain { current_linear: self.gain.gain_linear, ..self.gain })
        &&& later.high_pass == (HighPass { history: History::silent(), ..self.high_pass })
        &&& forall|i: int|
            0 <= i < 4 ==> #[trigger] later.eq.bands@[i] == (EqBand {
                history: History::silent(),
                ..self.eq.bands@[i]
            })
        &&& later.gate == (Gate {
            envelope: Single::zero(),
            gain: Single::zero(),
            hold_counter: 0,
            ..self.gate
        })
        &&& later.compressor == (Compressor { envelope: Single::zero(), ..self.compressor })
        &&& later.limiter == (Limiter { gain: Single::one(), ..self.limiter })
        &&& later.peak_meter.peak == Single::zero()
        &&& later.same_setup(self)
    }

    /// Resets every processor.
    pub fn reset(&mut self)
        ensures
            old(self).resets(*final(self)),
    {
        self.gain.reset();
        self.high_pass.reset();
        self.eq.reset();
        self.gate.reset();
        self.compressor.reset();
        self.limiter.reset();
        self.peak_meter.reset();
    }

    /// The chain's parameters are those of the settings, and every coefficient follows them.
    pub open spec fn follows<M: Elementary>(self, m: &M, s: Settings) -> bool {
        &&& self.gain_enabled == s.gain_enabled
        &&& self.high_pass_enabled == s.high_pass_enabled
        &&& self.gate_enabled == s.gate_enabled
        &&& self.eq_enabled == s.eq_enabled
        &&& self.compressor_enabled == s.compressor_enabled
        &&& self.limiter_enabled == s.limiter_enabled
        &&& is_linear(m, s.gain_db, self.gain.gain_linear)
        &&& self.high_pass.cutoff_hz == s.high_pass_cutoff_hz
        &&& is_high_pass(m, s.high_pass_cutoff_hz, self.sample_rate, self.high_pass.taps)
        &&& self.gate.threshold_db == s.gate_threshold_db
        &&& self.gate.attack_ms == s.gate_attack_ms
        &&& self.gate.release_ms == s.gate_release_ms
        &&& self.gate.hold_ms == s.gate_hold_ms
        &&& self.gate.tuned(m, self.sample_rate)
        &&& self.compressor.threshold_db == s.compressor_threshold_db
        &&& self.compressor.ratio == s.compressor_ratio
        &&& self.compressor.attack_ms == s.compressor_attack_ms
        &&& self.compressor.release_ms == s.compressor_release_ms
        &&& self.compressor.makeup_db == s.compressor_makeup_db
        &&& self.compressor.tuned(m, self.sample_rate)
        &&& self.limiter.ceiling_db == s.limiter_ceiling_db
        &&& self.limiter.release_ms == s.limiter_release_ms
        &&& self.limiter.tuned(m, self.sample_rate)
        &&& forall|i: int|
            0 <= i < 4 ==> {
                let band = #[trigger] self.eq.bands@[i];
                &&& band.freq_hz == s.eq_band_freq_hz@[i]
                &&& band.gain_db == s.eq_band_gain_db@[i]
                &&& band.q == s.eq_band_q@[i]
                &&& band.tuned(m, self.sample_rate)
            }
    }

    /// The running state of the two chains is the same: smoothed gains, filter histories,
    /// envelopes, gate and limiter gain, hold time, and peak.
    pub open spec fn same_state(self, other: VoiceChain) -> bool {
        &&& self.gain.current_linear == other.gain.current_linear
        &&& self.high_pass.history == other.high_pass.history
        &&& forall|i: int|
            0 <= i < 4 ==> (#[trigger] self.eq.bands@[i]).history == other.eq.bands@[i].history
        &&& self.gate.envelope == other.gate.envelope
        &&& self.gate.gain == other.gate.gain
        &&& self.gate.hold_counter == other.gate.hold_counter
        &&& self.compressor.envelope == other.compressor.envelope
        &&& self.compressor.makeup.current == other.compressor.makeup.current
        &&& self.limiter.gain == other.limiter.gain
        &&& self.peak_meter == other.peak_meter
    }

    /// `later` is the chain after settings were applied: it follows them, and what runs goes on.
    pub open spec fn takes_on<M: Elementary>(self, m: &M, s: Settings, later: VoiceChain) -> bool {
        &&& later.follows(m, s)
        &&& later.same_state(self)
        &&& later.gain.smooth_ms == self.gain.smooth_ms
        &&& later.gain.smooth_coeff == self.gain.smooth_coeff
        &&& forall|i: int|
            0 <= i < 4 ==> (#[trigger] later.eq.bands@[i]).kind == self.eq.bands@[i].kind
        &&& later.sample_rate == self.sample_rate
        &&& later.max_block_size == self.max_block_size
    }

    /// Applies settings to the chain. Safe to call while streaming: gain changes are smoothed,
    /// and recomputing coefficients does not touch running state (envelopes, etc.). A new
    /// limiter ceiling holds at once.
    pub fn apply_settings<M: Elementary>(&mut self, m: &M, s: &Settings)
        ensures
            old(self).takes_on(m, *s, *final(self)),
    {
        let ghost start = *self;
        self.gain_enabled = s.gain_enabled;
        self.high_pass_enabled = s.high_pass_enabled;
        self.gate_enabled = s.gate_enabled;
        self.eq_enabled = s.eq_enabled;
        self.compressor_enabled = s.compressor_enabled;
        self.limiter_enabled = s.limiter_enabled;

        self.gain.set_db(m, s.gain_db);

        self.high_pass.cutoff_hz = s.high_pass_cutoff_hz;
        self.high_pass.prepare(m, self.sample_rate, self.max_block_size);

        self.gate.threshold_db = s.gate_threshold_db;
        self.gate.attack_ms = s.gate_attack_ms;
        self.gate.release_ms = s.gate_release_ms;
        self.gate.hold_ms = s.gate_hold_ms;
        self.gate.prepare(m, self.sample_rate, self.max_block_size);

        self.compressor.threshold_db = s.compressor_threshold_db;
        self.compressor.ratio = s.compressor_ratio;
        self.compressor.attack_ms = s.compressor_attack_ms;
        self.compressor.release_ms = s.compressor_release_ms;
        self.compressor.makeup_db = s.compressor_makeup_db;
        self.compressor.retune(m, self.sample_rate);

        self.limiter.ceiling_db = s.limiter_ceiling_db;
        self.limiter.release_ms = s.limiter_release_ms;
        self.limiter.prepare(m, self.sample_rate, self.max_block_size);

        let ghost tuned = *self;
        let mut i: usize = 0;
        while i < 4
            invariant
                i <= 4,
                *self == (VoiceChain { eq: self.eq, ..tuned }),
                tuned.eq == start.eq,
                forall|j: int| i <= j < 4 ==> self.eq.bands@[j] == start.eq.bands@[j],
                forall|j: int|
                    0 <= j < i ==> {
                        let band = #[trigger] self.eq.bands@[j];
                        &&& band.kind == start.eq.bands@[j].kind
                        &&& band.history == start.eq.bands@[j].history
                        &&& band.freq_hz == s.eq_band_freq_hz@[j]
                        &&& band.gain_db == s.eq_band_gain_db@[j]
                        &&& band.q == s.eq_band_q@[j]
                        &&& band.tuned(m, tuned.sample_rate)
                    },
            decreases 4 - i,
        {
            let mut band: EqBand = self.eq.bands[i];
            band.freq_hz = s.eq_band_freq_hz[i];
            band.gain_db = s.eq_band_gain_db[i];
            band.q = s.eq_band_q[i];
            band.compute_coeffs(m, self.sample_rate);
            self.eq.bands[i] = band;
            i = i + 1;
        }
    }
}

proof fn lemma_bands_len(bands: Seq<EqBand>, input: Seq<Single>, n: nat)
    ensures
        bands_output(bands, input, n).len() == input.len(),
    decreases n,
{
    if n > 0 {
        lemma_bands_len(bands, input, (n - 1) as nat);
    }
}

} // verus!
