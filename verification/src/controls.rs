//! The controls of the settings: what the sliders and switches of the window change.
use vstd::prelude::*;

use crate::numbers::{
    EIGHTEEN, FIVE_HUNDRED, HUNDRED, MINUS_EIGHTEEN, MINUS_EIGHTY, MINUS_SIXTY, MINUS_TWENTY,
    TEN, TENTH, THOUSAND, TWENTY, TWENTY_THOUSAND, TWO_HUNDRED,
};
use crate::numeric::lemma_at_most;
use crate::single::Single;
use crate::state::Settings;

verus! {

/// A number among the settings. The equalizer's numbers come once for each of its four bands.
#[derive(Clone, Copy, Debug, PartialEq, Eq, Structural)]
pub enum Control {
    GainDb,
    HighPassCutoffHz,
    GateThresholdDb,
    GateAttackMs,
    GateHoldMs,
    GateReleaseMs,
    CompressorThresholdDb,
    CompressorRatio,
    CompressorAttackMs,
    CompressorReleaseMs,
    CompressorMakeupDb,
    LimiterCeilingDb,
    LimiterReleaseMs,
    EqFreqHz(usize),
    EqGainDb(usize),
    EqQ(usize),
}

/// A processor that can be switched off.
#[derive(Clone, Copy, Debug, PartialEq, Eq, Structural)]
pub enum Switch {
    Gain,
    HighPass,
    Gate,
    Eq,
    Compressor,
    Limiter,
}

impl Control {
    /// There is such a number.
    pub open spec fn spec_is_there(self) -> bool {
        match self {
            Control::EqFreqHz(band) => band < 4,
            Control::EqGainDb(band) => band < 4,
            Control::EqQ(band) => band < 4,
            _ => true,
        }
    }

    /// Whether there is such a number.
    #[verifier::when_used_as_spec(spec_is_there)]
    pub fn is_there(self) -> (r: bool)
        ensures
            r == self.spec_is_there(),
    {
        match self {
            Control::EqFreqHz(band) => band < 4,
            Control::EqGainDb(band) => band < 4,
            Control::EqQ(band) => band < 4,
            _ => true,
        }
    }

    /// The smallest and the largest value that the slider allows.
    pub open spec fn spec_range(self) -> (Single, Single) {
        match self {
            Control::GainDb => (Single::from_bits(MINUS_TWENTY), Single::from_bits(TWENTY)),
            Control::HighPassCutoffHz => (Single::from_bits(TWENTY), Single::from_bits(FIVE_HUNDRED)),
            Control::GateThresholdDb => (Single::from_bits(MINUS_EIGHTY), Single::zero()),
            Control::GateAttackMs => (Single::from_bits(TENTH), Single::from_bits(HUNDRED)),
            Control::GateHoldMs => (Single::zero(), Single::from_bits(FIVE_HUNDRED)),
            Control::GateReleaseMs => (Single::one(), Single::from_bits(THOUSAND)),
            Control::CompressorThresholdDb => (Single::from_bits(MINUS_SIXTY), Single::zero()),
            Control::CompressorRatio => (Single::one(), Single::from_bits(TWENTY)),
            Control::CompressorAttackMs => (Single::from_bits(TENTH), Single::from_bits(TWO_HUNDRED)),
            Control::CompressorReleaseMs => (Single::one(), Single::from_bits(THOUSAND)),
            Control::CompressorMakeupDb => (Single::from_bits(MINUS_TWENTY), Single::from_bits(TWENTY)),
            Control::LimiterCeilingDb => (Single::from_bits(MINUS_TWENTY), Single::zero()),
            Control::LimiterReleaseMs => (Single::one(), Single::from_bits(FIVE_HUNDRED)),
            Control::EqFreqHz(_) => (Single::from_bits(TWENTY), Single::from_bits(TWENTY_THOUSAND)),
            Control::EqGainDb(_) => (Single::from_bits(MINUS_EIGHTEEN), Single::from_bits(EIGHTEEN)),
            Control::EqQ(_) => (Single::from_bits(TENTH), Single::from_bits(TEN)),
        }
    }

    /// The smallest and the largest value that the slider allows.
    #[verifier::when_used_as_spec(spec_range)]
    pub fn range(self) -> (r: (Single, Single))
        ensures
            r == self.spec_range(),
    {
        match self {
            Control::GainDb => (Single::from_bits(MINUS_TWENTY), Single::from_bits(TWENTY)),
            Control::HighPassCutoffHz => (Single::from_bits(TWENTY), Single::from_bits(FIVE_HUNDRED)),
            Control::GateThresholdDb => (Single::from_bits(MINUS_EIGHTY), Single::zero()),
            Control::GateAttackMs => (Single::from_bits(TENTH), Single::from_bits(HUNDRED)),
            Control::GateHoldMs => (Single::zero(), Single::from_bits(FIVE_HUNDRED)),
            Control::GateReleaseMs => (Single::one(), Single::from_bits(THOUSAND)),
            Control::CompressorThresholdDb => (Single::from_bits(MINUS_SIXTY), Single::zero()),
            Control::CompressorRatio => (Single::one(), Single::from_bits(TWENTY)),
            Control::CompressorAttackMs => (Single::from_bits(TENTH), Single::from_bits(TWO_HUNDRED)),
            Control::CompressorReleaseMs => (Single::one(), Single::from_bits(THOUSAND)),
            Control::CompressorMakeupDb => (Single::from_bits(MINUS_TWENTY), Single::from_bits(TWENTY)),
            Control::LimiterCeilingDb => (Single::from_bits(MINUS_TWENTY), Single::zero()),
            Control::LimiterReleaseMs => (Single::one(), Single::from_bits(FIVE_HUNDRED)),
            Control::EqFreqHz(_) => (Single::from_bits(TWENTY), Single::from_bits(TWENTY_THOUSAND)),
            Control::EqGainDb(_) => (Single::from_bits(MINUS_EIGHTEEN), Single::from_bits(EIGHTEEN)),
            Control::EqQ(_) => (Single::from_bits(TENTH), Single::from_bits(TEN)),
        }
    }

    /// The slider's steps grow with the value. A shelf's Q, which has no effect, stays linear.
    pub open spec fn spec_is_logarithmic(self) -> bool {
        match self {
            Control::HighPassCutoffHz => true,
            Control::GateAttackMs => true,
            Control::GateReleaseMs => true,
            Control::CompressorRatio => true,
            Control::CompressorAttackMs => true,
            Control::CompressorReleaseMs => true,
            Control::LimiterReleaseMs => true,
            Control::EqFreqHz(_) => true,
            Control::EqQ(band) => band == 1 || band == 2,
            _ => false,
        }
    }

    /// Whether the slider's steps grow with the value. A shelf's Q, which has no effect, stays
    /// linear.
    #[verifier::when_used_as_spec(spec_is_logarithmic)]
    pub fn is_logarithmic(self) -> (r: bool)
        ensures
            r == self.spec_is_logarithmic(),
    {
        match self {
            Control::HighPassCutoffHz => true,
            Control::GateAttackMs => true,
            Control::GateReleaseMs => true,
            Control::CompressorRatio => true,
            Control::CompressorAttackMs => true,
            Control::CompressorReleaseMs => true,
            Control::LimiterReleaseMs => true,
            Control::EqFreqHz(_) => true,
            Control::EqQ(band) => band == 1 || band == 2,
            _ => false,
        }
    }

    /// The slider can be moved. A shelf's Q is shown, but it has no effect.
    pub open spec fn spec_is_active(self) -> bool {
        match self {
            Control::EqQ(band) => band == 1 || band == 2,
            _ => true,
        }
    }

    /// Whether the slider can be moved. A shelf's Q is shown, but it has no effect.
    #[verifier::when_used_as_spec(spec_is_active)]
    pub fn is_active(self) -> (r: bool)
        ensures
            r == self.spec_is_active(),
    {
        match self {
            Control::EqQ(band) => band == 1 || band == 2,
            _ => true,
        }
    }

    /// The slider's label.
    pub open spec fn label_text(self) -> Seq<char> {
        match self {
            Control::GainDb => "Gain (dB)"@,
            Control::HighPassCutoffHz => "Cutoff (Hz)"@,
            Control::GateThresholdDb => "Threshold (dB)"@,
            Control::GateAttackMs => "Attack (ms)"@,
            Control::GateHoldMs => "Hold (ms)"@,
            Control::GateReleaseMs => "Release (ms)"@,
            Control::CompressorThresholdDb => "Threshold (dB)"@,
            Control::CompressorRatio => "Ratio"@,
            Control::CompressorAttackMs => "Attack (ms)"@,
            Control::CompressorReleaseMs => "Release (ms)"@,
            Control::CompressorMakeupDb => "Makeup (dB)"@,
            Control::LimiterCeilingDb => "Ceiling (dB)"@,
            Control::LimiterReleaseMs => "Release (ms)"@,
            Control::EqFreqHz(_) => "Freq (Hz)"@,
            Control::EqGainDb(_) => "Gain (dB)"@,
            Control::EqQ(band) => if band == 1 || band == 2 {
                "Q"@
            } else {
                "Q (shelf)"@
            },
        }
    }

    /// The slider's label.
    pub fn label(self) -> (r: &'static str)
        ensures
            r@ == self.label_text(),
    {
        match self {
            Control::GainDb => "Gain (dB)",
            Control::HighPassCutoffHz => "Cutoff (Hz)",
            Control::GateThresholdDb => "Threshold (dB)",
            Control::GateAttackMs => "Attack (ms)",
            Control::GateHoldMs => "Hold (ms)",
            Control::GateReleaseMs => "Release (ms)",
            Control::CompressorThresholdDb => "Threshold (dB)",
            Control::CompressorRatio => "Ratio",
            Control::CompressorAttackMs => "Attack (ms)",
            Control::CompressorReleaseMs => "Release (ms)",
            Control::CompressorMakeupDb => "Makeup (dB)",
            Control::LimiterCeilingDb => "Ceiling (dB)",
            Control::LimiterReleaseMs => "Release (ms)",
            Control::EqFreqHz(_) => "Freq (Hz)",
            Control::EqGainDb(_) => "Gain (dB)",
            Control::EqQ(band) => if band == 1 || band == 2 {
                "Q"
            } else {
                "Q (shelf)"
            },
        }
    }
}

impl Settings {
    /// The value of a control.
    pub open spec fn number(self, c: Control) -> Single {
        match c {
            Control::GainDb => self.gain_db,
            Control::HighPassCutoffHz => self.high_pass_cutoff_hz,
            Control::GateThresholdDb => self.gate_threshold_db,
            Control::GateAttackMs => self.gate_attack_ms,
            Control::GateHoldMs => self.gate_hold_ms,
            Control::GateReleaseMs => self.gate_release_ms,
            Control::CompressorThresholdDb => self.compressor_threshold_db,
            Control::CompressorRatio => self.compressor_ratio,
            Control::CompressorAttackMs => self.compressor_attack_ms,
            Control::CompressorReleaseMs => self.compressor_release_ms,
            Control::CompressorMakeupDb => self.compressor_makeup_db,
            Control::LimiterCeilingDb => self.limiter_ceiling_db,
            Control::LimiterReleaseMs => self.limiter_release_ms,
            Control::EqFreqHz(band) => self.eq_band_freq_hz@[band as int],
            Control::EqGainDb(band) => self.eq_band_gain_db@[band as int],
            Control::EqQ(band) => self.eq_band_q@[band as int],
        }
    }

    /// The position of a switch.
    pub open spec fn flag(self, w: Switch) -> bool {
        match w {
            Switch::Gain => self.gain_enabled,
            Switch::HighPass => self.high_pass_enabled,
            Switch::Gate => self.gate_enabled,
            Switch::Eq => self.eq_enabled,
            Switch::Compressor => self.compressor_enabled,
            Switch::Limiter => self.limiter_enabled,
        }
    }

    /// The settings name the same devices.
    pub open spec fn same_devices(self, other: Settings) -> bool {
        &&& self.input_device == other.input_device
        &&& self.output_device == other.output_device
        &&& self.monitor_device == other.monitor_device
        &&& self.monitor_enabled == other.monitor_enabled
    }

    /// The value of a control.
    pub fn get_number(&self, c: Control) -> (r: Single)
        requires
            c.is_there(),
        ensures
            r == self.number(c),
    {
        match c {
            Control::GainDb => self.gain_db,
            Control::HighPassCutoffHz => self.high_pass_cutoff_hz,
            Control::GateThresholdDb => self.gate_threshold_db,
            Control::GateAttackMs => self.gate_attack_ms,
            Control::GateHoldMs => self.gate_hold_ms,
            Control::GateReleaseMs => self.gate_release_ms,
            Control::CompressorThresholdDb => self.compressor_threshold_db,
            Control::CompressorRatio => self.compressor_ratio,
            Control::CompressorAttackMs => self.compressor_attack_ms,
            Control::CompressorReleaseMs => self.compressor_release_ms,
            Control::CompressorMakeupDb => self.compressor_makeup_db,
            Control::LimiterCeilingDb => self.limiter_ceiling_db,
            Control::LimiterReleaseMs => self.limiter_release_ms,
            Control::EqFreqHz(band) => self.eq_band_freq_hz[band],
            Control::EqGainDb(band) => self.eq_band_gain_db[band],
            Control::EqQ(band) => self.eq_band_q[band],
        }
    }

    /// Moves a control; nothing else changes.
    pub fn set_number(&mut self, c: Control, value: Single)
        requires
            c.is_there(),
        ensures
            final(self).number(c) == value,
            forall|d: Control|
                d.is_there() && d != c ==> #[trigger] final(self).number(d) == old(self).number(d),
            forall|w: Switch| #[trigger] final(self).flag(w) == old(self).flag(w),
            final(self).same_devices(*old(self)),
    {
        match c {
            Control::GainDb => {
                self.gain_db = value;
            },
            Control::HighPassCutoffHz => {
                self.high_pass_cutoff_hz = value;
            },
            Control::GateThresholdDb => {
                self.gate_threshold_db = value;
            },
            Control::GateAttackMs => {
                self.gate_attack_ms = value;
            },
            Control::GateHoldMs => {
                self.gate_hold_ms = value;
            },
            Control::GateReleaseMs => {
                self.gate_release_ms = value;
            },
            Control::CompressorThresholdDb => {
                self.compressor_threshold_db = value;
            },
            Control::CompressorRatio => {
                self.compressor_ratio = value;
            },
            Control::CompressorAttackMs => {
                self.compressor_attack_ms = value;
            },
            Control::CompressorReleaseMs => {
                self.compressor_release_ms = value;
            },
            Control::CompressorMakeupDb => {
                self.compressor_makeup_db = value;
            },
            Control::LimiterCeilingDb => {
                self.limiter_ceiling_db = value;
            },
            Control::LimiterReleaseMs => {
                self.limiter_release_ms = value;
            },
            Control::EqFreqHz(band) => {
                self.eq_band_freq_hz[band] = value;
            },
            Control::EqGainDb(band) => {
                self.eq_band_gain_db[band] = value;
            },
            Control::EqQ(band) => {
                self.eq_band_q[band] = value;
            },
        }
    }

    /// The position of a switch.
    pub fn get_flag(&self, w: Switch) -> (r: bool)
        ensures
            r == self.flag(w),
    {
        match w {
            Switch::Gain => self.gain_enabled,
            Switch::HighPass => self.high_pass_enabled,
            Switch::Gate => self.gate_enabled,
            Switch::Eq => self.eq_enabled,
            Switch::Compressor => self.compressor_enabled,
            Switch::Limiter => self.limiter_enabled,
        }
    }

    /// Turns a switch; nothing else changes.
    pub fn set_flag(&mut self, w: Switch, on: bool)
        ensures
            final(self).flag(w) == on,
            forall|v: Switch| v != w ==> #[trigger] final(self).flag(v) == old(self).flag(v),
            forall|c: Control| #[trigger] final(self).number(c) == old(self).number(c),
            final(self).same_devices(*old(self)),
    {
        match w {
            Switch::Gain => {
                self.gain_enabled = on;
            },
            Switch::HighPass => {
                self.high_pass_enabled = on;
            },
            Switch::Gate => {
                self.gate_enabled = on;
            },
            Switch::Eq => {
                self.eq_enabled = on;
            },
            Switch::Compressor => {
                self.compressor_enabled = on;
            },
            Switch::Limiter => {
                self.limiter_enabled = on;
            },
        }
    }
}

/// Every slider has room, and the default settings lie within it.
pub proof fn law_defaults_lie_within_the_sliders(s: Settings, c: Control)
    requires
        s.is_default(),
        c.is_there(),
    ensures
        c.range().0.lt(c.range().1),
        c.range().0.le(s.number(c)),
        s.number(c).le(c.range().1),
{
    lemma_at_most(c.range().0, c.range().1);
    lemma_at_most(c.range().1, c.range().0);
    lemma_at_most(c.range().0, s.number(c));
    lemma_at_most(s.number(c), c.range().1);
}

} // verus!
