//! Settings of the voice chain.
use vstd::prelude::*;

use crate::numbers::{
    EIGHTY, EIGHT_THOUSAND, FIFTY, FIVE, HUNDRED, HUNDRED_FIFTY, HUNDRED_TWENTY, MINUS_EIGHTEEN,
    MINUS_FORTY, MINUS_ONE, SEVEN_TENTHS, SHELF_Q, THREE, THREE_HUNDRED, THREE_THOUSAND, TWENTY,
    TWO_HUNDRED,
};
use crate::single::Single;
use crate::text::{glue, glue3};

verus! {

/// What a switch that a preset does not mention is set to.
pub fn default_true() -> (r: bool)
    ensures
        r,
{
    true
}

/// All user-configurable parameters for the voice chain.
///
/// The defaults match those of the processors.
#[derive(Debug)]
pub struct Settings {
    /// Last-used input device name. `None` means use the system default.
    pub input_device: Option<String>,
    /// Last-used output device name. `None` means use the system default.
    pub output_device: Option<String>,
    /// Optional monitor device (e.g. headphones) to hear processed audio live.
    pub monitor_device: Option<String>,
    pub monitor_enabled: bool,
    pub gain_db: Single,
    pub gain_enabled: bool,
    pub high_pass_cutoff_hz: Single,
    pub high_pass_enabled: bool,
    pub gate_threshold_db: Single,
    pub gate_attack_ms: Single,
    pub gate_release_ms: Single,
    pub gate_hold_ms: Single,
    pub gate_enabled: bool,
    pub compressor_threshold_db: Single,
    pub compressor_ratio: Single,
    pub compressor_attack_ms: Single,
    pub compressor_release_ms: Single,
    pub compressor_makeup_db: Single,
    pub compressor_enabled: bool,
    pub limiter_ceiling_db: Single,
    pub limiter_release_ms: Single,
    pub limiter_enabled: bool,
    /// Centre or corner frequencies of the equalizer bands (Hz): low shelf, low-mid peak, high-mid
    /// peak, high shelf.
    pub eq_band_freq_hz: [Single; 4],
    /// Gain of each equalizer band (dB). Zero is transparent.
    pub eq_band_gain_db: [Single; 4],
    /// Q factor of each equalizer band. Only used by peak bands.
    pub eq_band_q: [Single; 4],
    pub eq_enabled: bool,
}

/// A preset as it was written down: each setting, if the preset mentions it.
#[derive(Debug)]
pub struct PartialSettings {
    pub input_device: Option<String>,
    pub output_device: Option<String>,
    pub monitor_device: Option<String>,
    pub monitor_enabled: Option<bool>,
    pub gain_db: Option<Single>,
    pub gain_enabled: Option<bool>,
    pub high_pass_cutoff_hz: Option<Single>,
    pub high_pass_enabled: Option<bool>,
    pub gate_threshold_db: Option<Single>,
    pub gate_attack_ms: Option<Single>,
    pub gate_release_ms: Option<Single>,
    pub gate_hold_ms: Option<Single>,
    pub gate_enabled: Option<bool>,
    pub compressor_threshold_db: Option<Single>,
    pub compressor_ratio: Option<Single>,
    pub compressor_attack_ms: Option<Single>,
    pub compressor_release_ms: Option<Single>,
    pub compressor_makeup_db: Option<Single>,
    pub compressor_enabled: Option<bool>,
    pub limiter_ceiling_db: Option<Single>,
    pub limiter_release_ms: Option<Single>,
    pub limiter_enabled: Option<bool>,
    pub eq_band_freq_hz: Option<[Single; 4]>,
    pub eq_band_gain_db: Option<[Single; 4]>,
    pub eq_band_q: Option<[Single; 4]>,
    pub eq_enabled: Option<bool>,
}

/// The value, or the one to fall back to.
pub open spec fn given<T>(value: Option<T>, fallback: T) -> T {
    match value {
        Some(v) => v,
        None => fallback,
    }
}

fn pick_flag(value: Option<bool>, fallback: bool) -> (r: bool)
    ensures
        r == given(value, fallback),
{
    match value {
        Some(v) => v,
        None => fallback,
    }
}

fn pick_number(value: Option<Single>, fallback: Single) -> (r: Single)
    ensures
        r == given(value, fallback),
{
    match value {
        Some(v) => v,
        None => fallback,
    }
}

fn pick_bands(value: Option<[Single; 4]>, fallback: [Single; 4]) -> (r: [Single; 4])
    ensures
        r == given(value, fallback),
{
    match value {
        Some(v) => v,
        None => fallback,
    }
}

/// A copy of a name, if there is one.
pub fn copy_name(name: &Option<String>) -> (r: Option<String>)
    ensures
        r == *name,
{
    match name {
        Some(n) => Some(n.clone()),
        None => None,
    }
}

impl Settings {
    /// These are the default settings.
    pub open spec fn is_default(self) -> bool {
        &&& self.input_device is None
        &&& self.output_device is None
        &&& self.monitor_device is None
        &&& !self.monitor_enabled
        &&& self.gain_db == Single::zero()
        &&& self.gain_enabled
        &&& self.high_pass_cutoff_hz == Single::from_bits(EIGHTY)
        &&& self.high_pass_enabled
        &&& self.gate_threshold_db == Single::from_bits(MINUS_FORTY)
        &&& self.gate_attack_ms == Single::from_bits(FIVE)
        &&& self.gate_release_ms == Single::from_bits(HUNDRED_FIFTY)
        &&& self.gate_hold_ms == Single::from_bits(HUNDRED)
        &&& self.gate_enabled
        &&& self.compressor_threshold_db == Single::from_bits(MINUS_EIGHTEEN)
        &&& self.compressor_ratio == Single::from_bits(THREE)
        &&& self.compressor_attack_ms == Single::from_bits(TWENTY)
        &&& self.compressor_release_ms == Single::from_bits(TWO_HUNDRED)
        &&& self.compressor_makeup_db == Single::zero()
        &&& self.compressor_enabled
        &&& self.limiter_ceiling_db == Single::from_bits(MINUS_ONE)
        &&& self.limiter_release_ms == Single::from_bits(FIFTY)
        &&& self.limiter_enabled
        &&& self.eq_band_freq_hz@ == seq![
            Single::from_bits(HUNDRED_TWENTY),
            Single::from_bits(THREE_HUNDRED),
            Single::from_bits(THREE_THOUSAND),
            Single::from_bits(EIGHT_THOUSAND),
        ]
        &&& self.eq_band_gain_db@ == seq![
            Single::zero(),
            Single::zero(),
            Single::zero(),
            Single::zero(),
        ]
        &&& self.eq_band_q@ == seq![
            Single::from_bits(SHELF_Q),
            Single::from_bits(SEVEN_TENTHS),
            Single::from_bits(SEVEN_TENTHS),
            Single::from_bits(SHELF_Q),
        ]
        &&& self.eq_enabled
    }

    /// The settings of a preset over given fallbacks.
    pub open spec fn overlaid(preset: PartialSettings, fallback: Settings) -> Settings {
        Settings {
            input_device: preset.input_device,
            output_device: preset.output_device,
            monitor_device: preset.monitor_device,
            monitor_enabled: given(preset.monitor_enabled, fallback.monitor_enabled),
            gain_db: given(preset.gain_db, fallback.gain_db),
            gain_enabled: given(preset.gain_enabled, fallback.gain_enabled),
            high_pass_cutoff_hz: given(preset.high_pass_cutoff_hz, fallback.high_pass_cutoff_hz),
            high_pass_enabled: given(preset.high_pass_enabled, fallback.high_pass_enabled),
            gate_threshold_db: given(preset.gate_threshold_db, fallback.gate_threshold_db),
            gate_attack_ms: given(preset.gate_attack_ms, fallback.gate_attack_ms),
            gate_release_ms: given(preset.gate_release_ms, fallback.gate_release_ms),
            gate_hold_ms: given(preset.gate_hold_ms, fallback.gate_hold_ms),
            gate_enabled: given(preset.gate_enabled, fallback.gate_enabled),
            compressor_threshold_db: given(preset.compressor_threshold_db, fallback.compressor_threshold_db),
            compressor_ratio: given(preset.compressor_ratio, fallback.compressor_ratio),
            compressor_attack_ms: given(preset.compressor_attack_ms, fallback.compressor_attack_ms),
            compressor_release_ms: given(preset.compressor_release_ms, fallback.compressor_release_ms),
            compressor_makeup_db: given(preset.compressor_makeup_db, fallback.compressor_makeup_db),
            compressor_enabled: given(preset.compressor_enabled, fallback.compressor_enabled),
            limiter_ceiling_db: given(preset.limiter_ceiling_db, fallback.limiter_ceiling_db),
            limiter_release_ms: given(preset.limiter_release_ms, fallback.limiter_release_ms),
            limiter_enabled: given(preset.limiter_enabled, fallback.limiter_enabled),
            eq_band_freq_hz: given(preset.eq_band_freq_hz, fallback.eq_band_freq_hz),
            eq_band_gain_db: given(preset.eq_band_gain_db, fallback.eq_band_gain_db),
            eq_band_q: given(preset.eq_band_q, fallback.eq_band_q),
            eq_enabled: given(preset.eq_enabled, fallback.eq_enabled),
        }
    }

    /// The settings that a preset describes. Missing keys fall back to defaults.
    pub fn from_preset(preset: PartialSettings) -> (r: Settings)
        ensures
            exists|d: Settings| #[trigger] d.is_default() && r == Settings::overlaid(preset, d),
    {
        let d: Settings = Settings::default();
        let r = Settings {
            input_device: preset.input_device,
            output_device: preset.output_device,
            monitor_device: preset.monitor_device,
            monitor_enabled: pick_flag(preset.monitor_enabled, d.monitor_enabled),
            gain_db: pick_number(preset.gain_db, d.gain_db),
            gain_enabled: pick_flag(preset.gain_enabled, d.gain_enabled),
            high_pass_cutoff_hz: pick_number(preset.high_pass_cutoff_hz, d.high_pass_cutoff_hz),
            high_pass_enabled: pick_flag(preset.high_pass_enabled, d.high_pass_enabled),
            gate_threshold_db: pick_number(preset.gate_threshold_db, d.gate_threshold_db),
            gate_attack_ms: pick_number(preset.gate_attack_ms, d.gate_attack_ms),
            gate_release_ms: pick_number(preset.gate_release_ms, d.gate_release_ms),
            gate_hold_ms: pick_number(preset.gate_hold_ms, d.gate_hold_ms),
            gate_enabled: pick_flag(preset.gate_enabled, d.gate_enabled),
            compressor_threshold_db: pick_number(preset.compressor_threshold_db, d.compressor_threshold_db),
            compressor_ratio: pick_number(preset.compressor_ratio, d.compressor_ratio),
            compressor_attack_ms: pick_number(preset.compressor_attack_ms, d.compressor_attack_ms),
            compressor_release_ms: pick_number(preset.compressor_release_ms, d.compressor_release_ms),
            compressor_makeup_db: pick_number(preset.compressor_makeup_db, d.compressor_makeup_db),
            compressor_enabled: pick_flag(preset.compressor_enabled, d.compressor_enabled),
            limiter_ceiling_db: pick_number(preset.limiter_ceiling_db, d.limiter_ceiling_db),
            limiter_release_ms: pick_number(preset.limiter_release_ms, d.limiter_release_ms),
            limiter_enabled: pick_flag(preset.limiter_enabled, d.limiter_enabled),
            eq_band_freq_hz: pick_bands(preset.eq_band_freq_hz, d.eq_band_freq_hz),
            eq_band_gain_db: pick_bands(preset.eq_band_gain_db, d.eq_band_gain_db),
            eq_band_q: pick_bands(preset.eq_band_q, d.eq_band_q),
            eq_enabled: pick_flag(preset.eq_enabled, d.eq_enabled),
        };
        assert(d.is_default());
        r
    }
}

impl Default for Settings {
    fn default() -> (r: Settings)
        ensures
            r.is_default(),
    {
        Settings {
            input_device: None,
            output_device: None,
            monitor_device: None,
            monitor_enabled: false,
            gain_db: Single::zero(),
            gain_enabled: default_true(),
            high_pass_cutoff_hz: Single::from_bits(EIGHTY),
            high_pass_enabled: default_true(),
            gate_threshold_db: Single::from_bits(MINUS_FORTY),
            gate_attack_ms: Single::from_bits(FIVE),
            gate_release_ms: Single::from_bits(HUNDRED_FIFTY),
            gate_hold_ms: Single::from_bits(HUNDRED),
            gate_enabled: default_true(),
            compressor_threshold_db: Single::from_bits(MINUS_EIGHTEEN),
            compressor_ratio: Single::from_bits(THREE),
            compressor_attack_ms: Single::from_bits(TWENTY),
            compressor_release_ms: Single::from_bits(TWO_HUNDRED),
            compressor_makeup_db: Single::zero(),
            compressor_enabled: default_true(),
            limiter_ceiling_db: Single::from_bits(MINUS_ONE),
            limiter_release_ms: Single::from_bits(FIFTY),
            limiter_enabled: default_true(),
            eq_band_freq_hz: [
                Single::from_bits(HUNDRED_TWENTY),
                Single::from_bits(THREE_HUNDRED),
                Single::from_bits(THREE_THOUSAND),
                Single::from_bits(EIGHT_THOUSAND),
            ],
            eq_band_gain_db: [
                Single::zero(),
                Single::zero(),
                Single::zero(),
                Single::zero(),
            ],
            eq_band_q: [
                Single::from_bits(SHELF_Q),
                Single::from_bits(SEVEN_TENTHS),
                Single::from_bits(SEVEN_TENTHS),
                Single::from_bits(SHELF_Q),
            ],
            eq_enabled: default_true(),
        }
    }
}

impl Clone for Settings {
    fn clone(&self) -> (r: Settings)
        ensures
            r == *self,
    {
        Settings {
            input_device: copy_name(&self.input_device),
            output_device: copy_name(&self.output_device),
            monitor_device: copy_name(&self.monitor_device),
            monitor_enabled: self.monitor_enabled,
            gain_db: self.gain_db,
            gain_enabled: self.gain_enabled,
            high_pass_cutoff_hz: self.high_pass_cutoff_hz,
            high_pass_enabled: self.high_pass_enabled,
            gate_threshold_db: self.gate_threshold_db,
            gate_attack_ms: self.gate_attack_ms,
            gate_release_ms: self.gate_release_ms,
            gate_hold_ms: self.gate_hold_ms,
            gate_enabled: self.gate_enabled,
            compressor_threshold_db: self.compressor_threshold_db,
            compressor_ratio: self.compressor_ratio,
            compressor_attack_ms: self.compressor_attack_ms,
            compressor_release_ms: self.compressor_release_ms,
            compressor_makeup_db: self.compressor_makeup_db,
            compressor_enabled: self.compressor_enabled,
            limiter_ceiling_db: self.limiter_ceiling_db,
            limiter_release_ms: self.limiter_release_ms,
            limiter_enabled: self.limiter_enabled,
            eq_band_freq_hz: self.eq_band_freq_hz,
            eq_band_gain_db: self.eq_band_gain_db,
            eq_band_q: self.eq_band_q,
            eq_enabled: self.eq_enabled,
        }
    }
}

/// Systems that keep configurations in different places.
#[derive(Clone, Copy, Debug, PartialEq, Eq, Structural)]
pub enum Platform {
    Windows,
    MacOs,
    Other,
}

/// A directory that the environment names.
#[derive(Clone, Copy, Debug, PartialEq, Eq, Structural)]
pub enum BaseDir {
    AppData,
    Home,
    XdgConfigHome,
}

/// Where the configuration is kept: under a directory that the environment names, or, if it names
/// none, in the current one.
///
/// Windows: `%APPDATA%\micapp\config.toml`;
/// macOS: `~/Library/Application Support/micapp/config.toml`;
/// else: `$XDG_CONFIG_HOME/micapp/config.toml` or `~/.config/micapp/config.toml`.
pub fn config_place(platform: Platform, appdata: bool, home: bool, xdg: bool) -> (r: (
    Option<BaseDir>,
    &'static str,
))
    ensures
        ({
            let (base, rest) = if platform is Windows && appdata {
                (Some(BaseDir::AppData), "micapp\\config.toml"@)
            } else if platform is MacOs && home {
                (Some(BaseDir::Home), "Library/Application Support/micapp/config.toml"@)
            } else if xdg {
                (Some(BaseDir::XdgConfigHome), "micapp/config.toml"@)
            } else if home {
                (Some(BaseDir::Home), ".config/micapp/config.toml"@)
            } else {
                (None, "config.toml"@)
            };
            r.0 == base && r.1@ == rest
        }),
{
    if matches!(platform, Platform::Windows) && appdata {
        (Some(BaseDir::AppData), "micapp\\config.toml")
    } else if matches!(platform, Platform::MacOs) && home {
        (Some(BaseDir::Home), "Library/Application Support/micapp/config.toml")
    } else if xdg {
        (Some(BaseDir::XdgConfigHome), "micapp/config.toml")
    } else if home {
        (Some(BaseDir::Home), ".config/micapp/config.toml")
    } else {
        (None, "config.toml")
    }
}

/// What came of reading a preset file.
pub enum PresetFile {
    /// It could not be read.
    Unreadable(String),
    /// It could be read, but it does not hold a preset.
    Unparsable(String),
    /// It holds this preset.
    Preset(PartialSettings),
}

/// What came of writing a preset file.
pub enum PresetWrite {
    /// The settings could not be turned into text.
    Unserialisable(String),
    /// The file could not be written.
    Unwritable(String),
    Written,
}

fn about_file(what: &str, path: &str, e: &str) -> (r: String)
    ensures
        r@ == what@ + path@ + ": "@ + e@,
{
    let mut r: String = glue3(what, path, ": ");
    r.append(e);
    r
}

impl Settings {
    /// The settings of a preset file. What the file does not mention falls back to the defaults.
    pub fn load(path: &str, file: PresetFile) -> (r: Result<Settings, String>)
        ensures
            match file {
                PresetFile::Unreadable(e) => r matches Err(msg) && msg@ == "could not read "@
                    + path@ + ": "@ + e@,
                PresetFile::Unparsable(e) => r matches Err(msg) && msg@ == "could not parse "@
                    + path@ + ": "@ + e@,
                PresetFile::Preset(preset) => r matches Ok(s) && exists|d: Settings|
                    #[trigger] d.is_default() && s == Settings::overlaid(preset, d),
            },
    {
        match file {
            PresetFile::Unreadable(e) => Err(about_file("could not read ", path, e.as_str())),
            PresetFile::Unparsable(e) => Err(about_file("could not parse ", path, e.as_str())),
            PresetFile::Preset(preset) => Ok(Settings::from_preset(preset)),
        }
    }

    /// The outcome of writing settings to a preset file.
    pub fn save(path: &str, write: PresetWrite) -> (r: Result<(), String>)
        ensures
            match write {
                PresetWrite::Unserialisable(e) => r matches Err(msg) && msg@
                    == "could not serialise settings: "@ + e@,
                PresetWrite::Unwritable(e) => r matches Err(msg) && msg@ == "could not write "@
                    + path@ + ": "@ + e@,
                PresetWrite::Written => r is Ok,
            },
    {
        match write {
            PresetWrite::Unserialisable(e) => Err(
                glue("could not serialise settings: ", e.as_str()),
            ),
            PresetWrite::Unwritable(e) => Err(about_file("could not write ", path, e.as_str())),
            PresetWrite::Written => Ok(()),
        }
    }

    /// The preset that mentions everything.
    pub open spec fn spec_to_preset(self) -> PartialSettings {
        PartialSettings {
            input_device: self.input_device,
            output_device: self.output_device,
            monitor_device: self.monitor_device,
            monitor_enabled: Some(self.monitor_enabled),
            gain_db: Some(self.gain_db),
            gain_enabled: Some(self.gain_enabled),
            high_pass_cutoff_hz: Some(self.high_pass_cutoff_hz),
            high_pass_enabled: Some(self.high_pass_enabled),
            gate_threshold_db: Some(self.gate_threshold_db),
            gate_attack_ms: Some(self.gate_attack_ms),
            gate_release_ms: Some(self.gate_release_ms),
            gate_hold_ms: Some(self.gate_hold_ms),
            gate_enabled: Some(self.gate_enabled),
            compressor_threshold_db: Some(self.compressor_threshold_db),
            compressor_ratio: Some(self.compressor_ratio),
            compressor_attack_ms: Some(self.compressor_attack_ms),
            compressor_release_ms: Some(self.compressor_release_ms),
            compressor_makeup_db: Some(self.compressor_makeup_db),
            compressor_enabled: Some(self.compressor_enabled),
            limiter_ceiling_db: Some(self.limiter_ceiling_db),
            limiter_release_ms: Some(self.limiter_release_ms),
            limiter_enabled: Some(self.limiter_enabled),
            eq_band_freq_hz: Some(self.eq_band_freq_hz),
            eq_band_gain_db: Some(self.eq_band_gain_db),
            eq_band_q: Some(self.eq_band_q),
            eq_enabled: Some(self.eq_enabled),
        }
    }

    /// The preset that mentions everything.
    pub fn to_preset(&self) -> (r: PartialSettings)
        ensures
            r == self.spec_to_preset(),
    {
        PartialSettings {
            input_device: copy_name(&self.input_device),
            output_device: copy_name(&self.output_device),
            monitor_device: copy_name(&self.monitor_device),
            monitor_enabled: Some(self.monitor_enabled),
            gain_db: Some(self.gain_db),
            gain_enabled: Some(self.gain_enabled),
            high_pass_cutoff_hz: Some(self.high_pass_cutoff_hz),
            high_pass_enabled: Some(self.high_pass_enabled),
            gate_threshold_db: Some(self.gate_threshold_db),
            gate_attack_ms: Some(self.gate_attack_ms),
            gate_release_ms: Some(self.gate_release_ms),
            gate_hold_ms: Some(self.gate_hold_ms),
            gate_enabled: Some(self.gate_enabled),
            compressor_threshold_db: Some(self.compressor_threshold_db),
            compressor_ratio: Some(self.compressor_ratio),
            compressor_attack_ms: Some(self.compressor_attack_ms),
            compressor_release_ms: Some(self.compressor_release_ms),
            compressor_makeup_db: Some(self.compressor_makeup_db),
            compressor_enabled: Some(self.compressor_enabled),
            limiter_ceiling_db: Some(self.limiter_ceiling_db),
            limiter_release_ms: Some(self.limiter_release_ms),
            limiter_enabled: Some(self.limiter_enabled),
            eq_band_freq_hz: Some(self.eq_band_freq_hz),
            eq_band_gain_db: Some(self.eq_band_gain_db),
            eq_band_q: Some(self.eq_band_q),
            eq_enabled: Some(self.eq_enabled),
        }
    }
}

/// What is written to a preset and read back is what was written, whatever the defaults are.
pub proof fn law_preset_restores_settings(s: Settings, d: Settings)
    ensures
        Settings::overlaid(s.spec_to_preset(), d) == s,
{
}

/// A preset that mentions nothing describes the default settings.
pub proof fn law_missing_keys_fall_back(p: PartialSettings, d: Settings)
    requires
        d.is_default(),
        p.input_device is None,
        p.output_device is None,
        p.monitor_device is None,
        p.monitor_enabled is None,
        p.gain_db is None,
        p.gain_enabled is None,
        p.high_pass_cutoff_hz is None,
        p.high_pass_enabled is None,
        p.gate_threshold_db is None,
        p.gate_attack_ms is None,
        p.gate_release_ms is None,
        p.gate_hold_ms is None,
        p.gate_enabled is None,
        p.compressor_threshold_db is None,
        p.compressor_ratio is None,
        p.compressor_attack_ms is None,
        p.compressor_release_ms is None,
        p.compressor_makeup_db is None,
        p.compressor_enabled is None,
        p.limiter_ceiling_db is None,
        p.limiter_release_ms is None,
        p.limiter_enabled is None,
        p.eq_band_freq_hz is None,
        p.eq_band_gain_db is None,
        p.eq_band_q is None,
        p.eq_enabled is None,
    ensures
        Settings::overlaid(p, d) == d,
{
}

/// A key that a preset mentions sets just the setting of that name, and one that it does not mention
/// leaves that setting at its fallback.
pub proof fn law_each_key_sets_its_setting(p: PartialSettings, d: Settings)
    ensures
        ({
            let s = Settings::overlaid(p, d);
            &&& s.input_device == p.input_device
            &&& s.output_device == p.output_device
            &&& s.monitor_device == p.monitor_device
            &&& p.monitor_enabled matches Some(v) ==> s.monitor_enabled == v
            &&& p.monitor_enabled is None ==> s.monitor_enabled == d.monitor_enabled
            &&& p.gain_db matches Some(v) ==> s.gain_db == v
            &&& p.gain_db is None ==> s.gain_db == d.gain_db
            &&& p.gain_enabled matches Some(v) ==> s.gain_enabled == v
            &&& p.gain_enabled is None ==> s.gain_enabled == d.gain_enabled
            &&& p.high_pass_cutoff_hz matches Some(v) ==> s.high_pass_cutoff_hz == v
            &&& p.high_pass_cutoff_hz is None ==> s.high_pass_cutoff_hz == d.high_pass_cutoff_hz
            &&& p.high_pass_enabled matches Some(v) ==> s.high_pass_enabled == v
            &&& p.high_pass_enabled is None ==> s.high_pass_enabled == d.high_pass_enabled
            &&& p.gate_threshold_db matches Some(v) ==> s.gate_threshold_db == v
            &&& p.gate_threshold_db is None ==> s.gate_threshold_db == d.gate_threshold_db
            &&& p.gate_attack_ms matches Some(v) ==> s.gate_attack_ms == v
            &&& p.gate_attack_ms is None ==> s.gate_attack_ms == d.gate_attack_ms
            &&& p.gate_release_ms matches Some(v) ==> s.gate_release_ms == v
            &&& p.gate_release_ms is None ==> s.gate_release_ms == d.gate_release_ms
            &&& p.gate_hold_ms matches Some(v) ==> s.gate_hold_ms == v
            &&& p.gate_hold_ms is None ==> s.gate_hold_ms == d.gate_hold_ms
            &&& p.gate_enabled matches Some(v) ==> s.gate_enabled == v
            &&& p.gate_enabled is None ==> s.gate_enabled == d.gate_enabled
            &&& p.compressor_threshold_db matches Some(v) ==> s.compressor_threshold_db == v
            &&& p.compressor_threshold_db is None ==> s.compressor_threshold_db == d.compressor_threshold_db
            &&& p.compressor_ratio matches Some(v) ==> s.compressor_ratio == v
            &&& p.compressor_ratio is None ==> s.compressor_ratio == d.compressor_ratio
            &&& p.compressor_attack_ms matches Some(v) ==> s.compressor_attack_ms == v
            &&& p.compressor_attack_ms is None ==> s.compressor_attack_ms == d.compressor_attack_ms
            &&& p.compressor_release_ms matches Some(v) ==> s.compressor_release_ms == v
            &&& p.compressor_release_ms is None ==> s.compressor_release_ms == d.compressor_release_ms
            &&& p.compressor_makeup_db matches Some(v) ==> s.compressor_makeup_db == v
            &&& p.compressor_makeup_db is None ==> s.compressor_makeup_db == d.compressor_makeup_db
            &&& p.compressor_enabled matches Some(v) ==> s.compressor_enabled == v
            &&& p.compressor_enabled is None ==> s.compressor_enabled == d.compressor_enabled
            &&& p.limiter_ceiling_db matches Some(v) ==> s.limiter_ceiling_db == v
            &&& p.limiter_ceiling_db is None ==> s.limiter_ceiling_db == d.limiter_ceiling_db
            &&& p.limiter_release_ms matches Some(v) ==> s.limiter_release_ms == v
            &&& p.limiter_release_ms is None ==> s.limiter_release_ms == d.limiter_release_ms
            &&& p.limiter_enabled matches Some(v) ==> s.limiter_enabled == v
            &&& p.limiter_enabled is None ==> s.limiter_enabled == d.limiter_enabled
            &&& p.eq_band_freq_hz matches Some(v) ==> s.eq_band_freq_hz == v
            &&& p.eq_band_freq_hz is None ==> s.eq_band_freq_hz == d.eq_band_freq_hz
            &&& p.eq_band_gain_db matches Some(v) ==> s.eq_band_gain_db == v
            &&& p.eq_band_gain_db is None ==> s.eq_band_gain_db == d.eq_band_gain_db
            &&& p.eq_band_q matches Some(v) ==> s.eq_band_q == v
            &&& p.eq_band_q is None ==> s.eq_band_q == d.eq_band_q
            &&& p.eq_enabled matches Some(v) ==> s.eq_enabled == v
            &&& p.eq_enabled is None ==> s.eq_enabled == d.eq_enabled
        }),
{
}

/// A preset that is written holds every setting under its own key.
pub proof fn law_each_setting_has_its_key(s: Settings)
    ensures
        ({
            let p = s.spec_to_preset();
            &&& p.input_device == s.input_device
            &&& p.output_device == s.output_device
            &&& p.monitor_device == s.monitor_device
            &&& p.monitor_enabled == Some(s.monitor_enabled)
            &&& p.gain_db == Some(s.gain_db)
            &&& p.gain_enabled == Some(s.gain_enabled)
            &&& p.high_pass_cutoff_hz == Some(s.high_pass_cutoff_hz)
            &&& p.high_pass_enabled == Some(s.high_pass_enabled)
            &&& p.gate_threshold_db == Some(s.gate_threshold_db)
            &&& p.gate_attack_ms == Some(s.gate_attack_ms)
            &&& p.gate_release_ms == Some(s.gate_release_ms)
            &&& p.gate_hold_ms == Some(s.gate_hold_ms)
            &&& p.gate_enabled == Some(s.gate_enabled)
            &&& p.compressor_threshold_db == Some(s.compressor_threshold_db)
            &&& p.compressor_ratio == Some(s.compressor_ratio)
            &&& p.compressor_attack_ms == Some(s.compressor_attack_ms)
            &&& p.compressor_release_ms == Some(s.compressor_release_ms)
            &&& p.compressor_makeup_db == Some(s.compressor_makeup_db)
            &&& p.compressor_enabled == Some(s.compressor_enabled)
            &&& p.limiter_ceiling_db == Some(s.limiter_ceiling_db)
            &&& p.limiter_release_ms == Some(s.limiter_release_ms)
            &&& p.limiter_enabled == Some(s.limiter_enabled)
            &&& p.eq_band_freq_hz == Some(s.eq_band_freq_hz)
            &&& p.eq_band_gain_db == Some(s.eq_band_gain_db)
            &&& p.eq_band_q == Some(s.eq_band_q)
            &&& p.eq_enabled == Some(s.eq_enabled)
        }),
{
}

} // verus!
