use micapp::app::{
    fill_fraction, list_holds, named, peak_bar, restore, shown_peak, GuiAction, GuiEvent, MicApp,
};
use micapp::audio::engine::AudioCmd;
use micapp::cli::{arg_value, has_flag, parse_args, run_settings, saved_line, usage_lines, CliAction};
use micapp::controls::{Control, Switch};
use micapp::numbers;
use micapp::single::Single;
use micapp::state::{
    config_place, default_true, BaseDir, PartialSettings, Platform, PresetFile, PresetWrite,
    Settings,
};
use micapp::text::{contains, decimal, glue, glue3, letters};
use micapp::tray::{menu_command, tray_icon_rgba, window_frame, TrayCmd, WindowAction};

fn s(x: f32) -> Single {
    Single::from_bits(x.to_bits())
}

fn f(x: Single) -> f32 {
    f32::from_bits(x.to_bits())
}

fn strings(xs: &[&str]) -> Vec<String> {
    xs.iter().map(|x| x.to_string()).collect()
}

// --- numbers and text --------------------------------------------------------

#[test]
fn constants_are_what_they_say() {
    for (bits, x) in [
        (numbers::TENTH, 0.1f32),
        (numbers::FIVE_HUNDRED, 500.0),
        (numbers::THOUSAND, 1000.0),
        (numbers::TWENTY_THOUSAND, 20_000.0),
        (numbers::EIGHTEEN, 18.0),
        (numbers::MINUS_TWENTY, -20.0),
        (numbers::MINUS_EIGHTY, -80.0),
        (numbers::THOUSANDTH, 0.001),
        (numbers::TWENTIETH, 0.05),
        (numbers::HALF, 0.5),
        (numbers::FADE, 0.9),
        (numbers::TWO, 2.0),
        (numbers::THREE, 3.0),
        (numbers::FIVE, 5.0),
        (numbers::TEN, 10.0),
        (numbers::TWENTY, 20.0),
        (numbers::FORTY, 40.0),
        (numbers::FIFTY, 50.0),
        (numbers::EIGHTY, 80.0),
        (numbers::HUNDRED, 100.0),
        (numbers::HUNDRED_TWENTY, 120.0),
        (numbers::HUNDRED_FIFTY, 150.0),
        (numbers::TWO_HUNDRED, 200.0),
        (numbers::THREE_HUNDRED, 300.0),
        (numbers::THREE_THOUSAND, 3000.0),
        (numbers::EIGHT_THOUSAND, 8000.0),
        (numbers::FORTY_EIGHT_THOUSAND, 48_000.0),
        (numbers::SEVEN_TENTHS, 0.7),
        (numbers::SHELF_Q, 0.707),
        (numbers::MINUS_ONE, -1.0),
        (numbers::MINUS_TWO, -2.0),
        (numbers::MINUS_THREE, -3.0),
        (numbers::MINUS_SIX, -6.0),
        (numbers::MINUS_EIGHTEEN, -18.0),
        (numbers::MINUS_FORTY, -40.0),
        (numbers::MINUS_SIXTY, -60.0),
        (numbers::MINUS_INF_LABEL_DB, -119.0),
        (numbers::MINUS_INF_DB, -120.0),
        (numbers::PI, std::f32::consts::PI),
        (numbers::SQRT_TWO, std::f32::consts::SQRT_2),
        (numbers::SQRT_HALF, std::f32::consts::FRAC_1_SQRT_2),
    ] {
        assert_eq!(bits, x.to_bits());
    }
}

#[test]
fn decimal_digits() {
    for n in [0u32, 7, 10, 99, 100, 12_345, 1_000_000, u32::MAX] {
        assert_eq!(decimal(n), n.to_string());
    }
}

#[test]
fn text_helpers() {
    assert_eq!(glue("a", "b"), "ab");
    assert_eq!(glue3("a", "–", "c"), "a–c");
    assert_eq!(letters("aé"), vec!['a', 'é']);
    assert!(contains("hello", "ell"));
    assert!(contains("hello", ""));
    assert!(contains("", ""));
    assert!(contains("hello", "hello"));
    assert!(contains("aab", "ab"));
    assert!(!contains("hello", "hellos"));
    assert!(!contains("", "a"));
    assert!(!contains("abc", "bd"));
}

// --- settings ----------------------------------------------------------------

#[test]
fn switches_default_to_on() {
    assert!(default_true());
    let d = Settings::default();
    assert!(d.gain_enabled && d.high_pass_enabled && d.gate_enabled);
    assert!(d.eq_enabled && d.compressor_enabled && d.limiter_enabled);
    assert!(!d.monitor_enabled);
}

fn number(t: &toml::Table, key: &str) -> Option<Single> {
    t.get(key).map(|v| match v {
        toml::Value::Float(x) => s(*x as f32),
        toml::Value::Integer(x) => s(*x as f32),
        _ => panic!("{key} is not a number"),
    })
}

fn flag(t: &toml::Table, key: &str) -> Option<bool> {
    t.get(key).map(|v| v.as_bool().unwrap())
}

fn name(t: &toml::Table, key: &str) -> Option<String> {
    t.get(key).map(|v| v.as_str().unwrap().to_string())
}

fn bands(t: &toml::Table, key: &str) -> Option<[Single; 4]> {
    t.get(key).map(|v| {
        let a = v.as_array().unwrap();
        let x: Vec<Single> = a.iter().map(|v| s(v.as_float().unwrap() as f32)).collect();
        [x[0], x[1], x[2], x[3]]
    })
}

fn preset_of(text: &str) -> PartialSettings {
    let t: toml::Table = toml::from_str(text).unwrap();
    PartialSettings {
        input_device: name(&t, "input_device"),
        output_device: name(&t, "output_device"),
        monitor_device: name(&t, "monitor_device"),
        monitor_enabled: flag(&t, "monitor_enabled"),
        gain_db: number(&t, "gain_db"),
        gain_enabled: flag(&t, "gain_enabled"),
        high_pass_cutoff_hz: number(&t, "high_pass_cutoff_hz"),
        high_pass_enabled: flag(&t, "high_pass_enabled"),
        gate_threshold_db: number(&t, "gate_threshold_db"),
        gate_attack_ms: number(&t, "gate_attack_ms"),
        gate_release_ms: number(&t, "gate_release_ms"),
        gate_hold_ms: number(&t, "gate_hold_ms"),
        gate_enabled: flag(&t, "gate_enabled"),
        compressor_threshold_db: number(&t, "compressor_threshold_db"),
        compressor_ratio: number(&t, "compressor_ratio"),
        compressor_attack_ms: number(&t, "compressor_attack_ms"),
        compressor_release_ms: number(&t, "compressor_release_ms"),
        compressor_makeup_db: number(&t, "compressor_makeup_db"),
        compressor_enabled: flag(&t, "compressor_enabled"),
        limiter_ceiling_db: number(&t, "limiter_ceiling_db"),
        limiter_release_ms: number(&t, "limiter_release_ms"),
        limiter_enabled: flag(&t, "limiter_enabled"),
        eq_band_freq_hz: bands(&t, "eq_band_freq_hz"),
        eq_band_gain_db: bands(&t, "eq_band_gain_db"),
        eq_band_q: bands(&t, "eq_band_q"),
        eq_enabled: flag(&t, "eq_enabled"),
    }
}

fn text_of(p: &PartialSettings) -> String {
    let mut t = toml::Table::new();
    let mut put = |key: &str, v: Option<toml::Value>| {
        if let Some(v) = v {
            t.insert(key.to_string(), v);
        }
    };
    let num = |x: Single| toml::Value::Float(f(x) as f64);
    let row = |x: [Single; 4]| toml::Value::Array(x.iter().map(|&x| num(x)).collect());
    put("input_device", p.input_device.clone().map(toml::Value::String));
    put("output_device", p.output_device.clone().map(toml::Value::String));
    put("monitor_device", p.monitor_device.clone().map(toml::Value::String));
    put("monitor_enabled", p.monitor_enabled.map(toml::Value::Boolean));
    put("gain_db", p.gain_db.map(num));
    put("gain_enabled", p.gain_enabled.map(toml::Value::Boolean));
    put("high_pass_cutoff_hz", p.high_pass_cutoff_hz.map(num));
    put("high_pass_enabled", p.high_pass_enabled.map(toml::Value::Boolean));
    put("gate_threshold_db", p.gate_threshold_db.map(num));
    put("gate_attack_ms", p.gate_attack_ms.map(num));
    put("gate_release_ms", p.gate_release_ms.map(num));
    put("gate_hold_ms", p.gate_hold_ms.map(num));
    put("gate_enabled", p.gate_enabled.map(toml::Value::Boolean));
    put("compressor_threshold_db", p.compressor_threshold_db.map(num));
    put("compressor_ratio", p.compressor_ratio.map(num));
    put("compressor_attack_ms", p.compressor_attack_ms.map(num));
    put("compressor_release_ms", p.compressor_release_ms.map(num));
    put("compressor_makeup_db", p.compressor_makeup_db.map(num));
    put("compressor_enabled", p.compressor_enabled.map(toml::Value::Boolean));
    put("limiter_ceiling_db", p.limiter_ceiling_db.map(num));
    put("limiter_release_ms", p.limiter_release_ms.map(num));
    put("limiter_enabled", p.limiter_enabled.map(toml::Value::Boolean));
    put("eq_band_freq_hz", p.eq_band_freq_hz.map(row));
    put("eq_band_gain_db", p.eq_band_gain_db.map(row));
    put("eq_band_q", p.eq_band_q.map(row));
    put("eq_enabled", p.eq_enabled.map(toml::Value::Boolean));
    toml::to_string_pretty(&t).unwrap()
}

#[test]
fn default_settings_roundtrip() {
    let original = Settings::default();
    let text = text_of(&original.to_preset());
    let parsed = Settings::from_preset(preset_of(&text));
    assert!((f(original.gain_db) - f(parsed.gain_db)).abs() < 1e-6);
    assert!((f(original.compressor_ratio) - f(parsed.compressor_ratio)).abs() < 1e-6);
    assert!((f(original.limiter_ceiling_db) - f(parsed.limiter_ceiling_db)).abs() < 1e-6);
    assert_eq!(parsed.eq_band_q, original.eq_band_q);
}

#[test]
fn partial_toml_uses_defaults_for_missing_keys() {
    // Only override one field; everything else should fall back to Default.
    let toml = "gain_db = 6.0\n";
    let settings = Settings::from_preset(preset_of(toml));
    assert!((f(settings.gain_db) - 6.0).abs() < 1e-6);
    assert!((f(settings.high_pass_cutoff_hz) - 80.0).abs() < 1e-6);
    assert!((f(settings.compressor_ratio) - 3.0).abs() < 1e-6);
}

#[test]
fn preset_restores_every_setting() {
    let mut a = Settings::default();
    a.input_device = Some("Mic".to_string());
    a.monitor_enabled = true;
    a.gate_hold_ms = s(12.5);
    a.eq_band_gain_db = [s(1.0), s(-2.0), s(3.5), s(0.0)];
    a.limiter_enabled = false;
    let b = Settings::from_preset(preset_of(&text_of(&a.to_preset())));
    assert_eq!(b.input_device, a.input_device);
    assert_eq!(b.output_device, None);
    assert!(b.monitor_enabled && !b.limiter_enabled);
    assert_eq!(b.gate_hold_ms, a.gate_hold_ms);
    assert_eq!(b.eq_band_gain_db, a.eq_band_gain_db);
}

#[test]
fn preset_files() {
    let bad = Settings::load("p.toml", PresetFile::Unreadable("no file".to_string()));
    assert_eq!(bad.unwrap_err(), "could not read p.toml: no file");
    let bad = Settings::load("p.toml", PresetFile::Unparsable("line 1".to_string()));
    assert_eq!(bad.unwrap_err(), "could not parse p.toml: line 1");
    let good = Settings::load("p.toml", PresetFile::Preset(preset_of("gate_enabled = false\n")));
    assert!(!good.unwrap().gate_enabled);
    assert_eq!(
        Settings::save("p", PresetWrite::Unserialisable("x".to_string())).unwrap_err(),
        "could not serialise settings: x"
    );
    assert_eq!(
        Settings::save("p", PresetWrite::Unwritable("full".to_string())).unwrap_err(),
        "could not write p: full"
    );
    assert!(Settings::save("p", PresetWrite::Written).is_ok());
}

#[test]
fn configuration_places() {
    let w = config_place(Platform::Windows, true, true, true);
    assert_eq!(w, (Some(BaseDir::AppData), "micapp\\config.toml"));
    let m = config_place(Platform::MacOs, true, true, true);
    assert_eq!(m, (Some(BaseDir::Home), "Library/Application Support/micapp/config.toml"));
    let x = config_place(Platform::Other, true, true, true);
    assert_eq!(x, (Some(BaseDir::XdgConfigHome), "micapp/config.toml"));
    let h = config_place(Platform::Other, true, true, false);
    assert_eq!(h, (Some(BaseDir::Home), ".config/micapp/config.toml"));
    let h = config_place(Platform::Windows, false, true, false);
    assert_eq!(h, (Some(BaseDir::Home), ".config/micapp/config.toml"));
    let n = config_place(Platform::MacOs, true, false, false);
    assert_eq!(n, (None, "config.toml"));
}

// --- controls ----------------------------------------------------------------

#[test]
fn controls_change_one_setting() {
    let mut a = Settings::default();
    a.set_number(Control::CompressorRatio, s(8.0));
    assert_eq!(f(a.compressor_ratio), 8.0);
    assert_eq!(f(a.get_number(Control::CompressorRatio)), 8.0);
    a.set_number(Control::EqGainDb(2), s(-4.0));
    assert_eq!(f(a.eq_band_gain_db[2]), -4.0);
    assert_eq!(f(a.get_number(Control::EqGainDb(1))), 0.0);
    a.set_flag(Switch::Eq, false);
    assert!(!a.get_flag(Switch::Eq) && a.get_flag(Switch::Gate));
    assert!(!a.eq_enabled);
}

#[test]
fn control_ranges() {
    let (lo, hi) = Control::HighPassCutoffHz.range();
    assert_eq!((f(lo), f(hi)), (20.0, 500.0));
    let (lo, hi) = Control::GateThresholdDb.range();
    assert_eq!((f(lo), f(hi)), (-80.0, 0.0));
    let (lo, hi) = Control::EqFreqHz(3).range();
    assert_eq!((f(lo), f(hi)), (20.0, 20_000.0));
    assert!(Control::CompressorAttackMs.is_logarithmic());
    assert!(!Control::GainDb.is_logarithmic());
    assert!(Control::EqQ(1).is_logarithmic());
    assert!(Control::EqQ(2).is_logarithmic());
    assert!(!Control::EqQ(0).is_logarithmic());
    assert!(!Control::EqQ(3).is_logarithmic());
    assert_eq!(Control::EqQ(0).label(), "Q (shelf)");
    assert_eq!(Control::EqQ(2).label(), "Q");
    assert!(!Control::EqQ(3).is_active() && Control::EqQ(1).is_active());
    assert!(Control::EqQ(3).is_there() && !Control::EqQ(4).is_there());
    let d = Settings::default();
    for c in [Control::GainDb, Control::LimiterReleaseMs, Control::EqQ(0), Control::GateAttackMs] {
        let (lo, hi) = c.range();
        assert!(f(lo) <= f(d.get_number(c)) && f(d.get_number(c)) <= f(hi));
    }
}

// --- window ------------------------------------------------------------------

fn window() -> MicApp {
    let mut saved = Settings::default();
    saved.input_device = Some("Mic B".to_string());
    saved.output_device = Some("gone".to_string());
    MicApp::new(strings(&["Mic A", "Mic B"]), strings(&["Out A", "Out B"]), Some(saved))
}

#[test]
fn window_restores_the_selection() {
    let w = window();
    assert_eq!(w.selected_input, "Mic B");
    assert_eq!(w.selected_output, "Out A");
    assert_eq!(w.selected_monitor, "Out A");
    assert_eq!(f(w.displayed_peak_db), -120.0);
    assert!(w.status_message.is_empty());
    let w = MicApp::new(vec![], vec![], None);
    assert_eq!(w.selected_input, "");
    let start = w.engine_start();
    assert!(start.input.is_none() && start.output.is_none() && start.monitor.is_none());
    assert_eq!(restore(&None, &strings(&["x"])), "x");
    assert!(list_holds(&strings(&["a", "b"]), &"b".to_string()));
    assert!(!list_holds(&strings(&["a", "b"]), &"c".to_string()));
    assert_eq!(named(&"".to_string()), None);
    assert_eq!(named(&"n".to_string()), Some("n".to_string()));
}

#[test]
fn engine_starts_with_the_selection() {
    let mut w = window();
    let start = w.engine_start();
    assert_eq!(start.input.as_deref(), Some("Mic B"));
    assert_eq!(start.output.as_deref(), Some("Out A"));
    assert_eq!(start.monitor.as_deref(), Some("Out A"));
    assert!(!start.monitor_enabled);
    w.settings.monitor_enabled = true;
    let start = w.engine_start();
    assert_eq!(start.monitor.as_deref(), Some("Out A"));
    assert!(start.monitor_enabled);
}

#[test]
fn new_selection_reopens_devices() {
    let mut w = window();
    assert!(w.handle(GuiEvent::PickInput("Mic B".to_string())).is_empty());
    let actions = w.handle(GuiEvent::PickInput("Mic A".to_string()));
    assert_eq!(actions.len(), 2);
    match &actions[0] {
        GuiAction::Command(AudioCmd::ChangeDevices {
            input_name,
            output_name,
            monitor_name,
            monitor_enabled,
        }) => {
            assert_eq!(input_name.as_deref(), Some("Mic A"));
            assert_eq!(output_name.as_deref(), Some("Out A"));
            assert_eq!(monitor_name.as_deref(), Some("Out A"));
            assert!(!monitor_enabled);
        }
        _ => panic!("expected a command"),
    }
    match &actions[1] {
        GuiAction::Store(s) => {
            assert_eq!(s.input_device.as_deref(), Some("Mic A"));
            assert_eq!(s.output_device.as_deref(), Some("Out A"));
            assert_eq!(s.monitor_device.as_deref(), Some("Out A"));
        }
        _ => panic!("expected to store"),
    }
    assert_eq!(w.handle(GuiEvent::PickOutput("Out B".to_string())).len(), 2);
    assert_eq!(w.selected_output, "Out B");
    assert_eq!(w.handle(GuiEvent::PickMonitor("Out B".to_string())).len(), 2);
    assert_eq!(w.selected_monitor, "Out B");

    // what was stored is selected again at the next start
    let again = MicApp::new(
        strings(&["Mic A", "Mic B"]),
        strings(&["Out A", "Out B"]),
        Some(w.settings.clone()),
    );
    assert_eq!(again.selected_input, "Mic A");
    assert_eq!(again.selected_output, "Out B");
    assert_eq!(again.selected_monitor, "Out B");
}

#[test]
fn monitor_is_switched_without_reopening() {
    let mut w = window();
    assert!(w.handle(GuiEvent::SetMonitor(false)).is_empty());
    let actions = w.handle(GuiEvent::SetMonitor(true));
    assert_eq!(actions.len(), 2);
    assert!(matches!(actions[0], GuiAction::Monitor(true)));
    assert!(matches!(&actions[1], GuiAction::Store(s) if s.monitor_enabled));
}

#[test]
fn edits_reach_the_engine_at_the_end_of_the_frame() {
    let mut w = window();
    let edit = GuiEvent::Move(Control::GainDb, s(3.0));
    assert!(MicApp::is_edit(&edit));
    assert!(w.handle(edit).is_empty());
    assert!(w.handle(GuiEvent::Turn(Switch::Gate, false)).is_empty());
    assert!(w.handle(GuiEvent::Move(Control::EqQ(9), s(3.0))).is_empty());
    assert_eq!(f(w.settings.gain_db), 3.0);
    let actions = w.end_frame(true);
    match &actions[0] {
        GuiAction::Command(AudioCmd::UpdateSettings(s)) => {
            assert_eq!(f(s.gain_db), 3.0);
            assert!(!s.gate_enabled);
        }
        _ => panic!("expected a command"),
    }
    assert!(matches!(&actions[1], GuiAction::Store(s) if s.input_device.is_some()));
    assert!(w.end_frame(false).is_empty());
}

#[test]
fn frame_of_many_events_updates_once() {
    let mut w = window();
    let mut changed = false;
    let mut all = Vec::new();
    all.extend(w.take_event(&mut changed, GuiEvent::Stored(Ok(()))));
    assert!(!changed);
    all.extend(w.take_event(&mut changed, GuiEvent::Move(Control::GainDb, s(1.0))));
    assert!(changed);
    all.extend(w.take_event(&mut changed, GuiEvent::Turn(Switch::Gate, false)));
    all.extend(w.take_event(&mut changed, GuiEvent::Move(Control::GainDb, s(2.0))));
    all.extend(w.take_event(&mut changed, GuiEvent::Stored(Ok(()))));
    assert!(changed);
    all.extend(w.end_frame(changed));
    assert_eq!(all.len(), 2);
    match &all[0] {
        GuiAction::Command(AudioCmd::UpdateSettings(t)) => {
            assert_eq!(f(t.gain_db), 2.0);
            assert!(!t.gate_enabled);
        }
        _ => panic!("expected a command"),
    }
    assert!(matches!(&all[1], GuiAction::Store(_)));
}

#[test]
fn monitor_switches_without_reopening() {
    let mut w = window();
    let actions = w.handle(GuiEvent::SetMonitor(true));
    assert_eq!(actions.len(), 2);
    assert!(matches!(&actions[0], GuiAction::Monitor(true)));
    assert!(matches!(&actions[1], GuiAction::Store(t) if t.monitor_enabled));
    assert!(w.handle(GuiEvent::SetMonitor(true)).is_empty());
    let actions = w.handle(GuiEvent::SetMonitor(false));
    assert!(matches!(&actions[0], GuiAction::Monitor(false)));
}

#[test]
fn presets_and_status_messages() {
    let mut w = window();
    let mut preset = Settings::default();
    preset.gain_db = s(9.0);
    let event = GuiEvent::Loaded { path: "a.toml".to_string(), preset: Ok(preset) };
    assert!(MicApp::is_edit(&event));
    w.handle(event);
    assert_eq!(f(w.settings.gain_db), 9.0);
    assert_eq!(w.status_message, "Loaded: a.toml");
    let event = GuiEvent::Loaded { path: "b.toml".to_string(), preset: Err("bad".to_string()) };
    assert!(!MicApp::is_edit(&event));
    w.handle(event);
    assert_eq!(f(w.settings.gain_db), 9.0);
    assert_eq!(w.status_message, "Load error: bad");
    w.handle(GuiEvent::Saved { path: "c.toml".to_string(), outcome: Ok(()) });
    assert_eq!(w.status_message, "Saved: c.toml");
    w.handle(GuiEvent::Saved { path: "c.toml".to_string(), outcome: Err("no".to_string()) });
    assert_eq!(w.status_message, "Save error: no");
    w.handle(GuiEvent::Stored(Ok(())));
    assert_eq!(w.status_message, "Save error: no");
    w.handle(GuiEvent::Stored(Err("disk".to_string())));
    assert_eq!(w.status_message, "Config save error: disk");
    assert!(!MicApp::is_edit(&GuiEvent::Stored(Ok(()))));
}

#[test]
fn meter_rises_at_once_and_decays() {
    let mut w = window();
    w.show_peak(s(-10.0));
    assert_eq!(f(w.displayed_peak_db), -10.0);
    w.show_peak(s(-90.0));
    assert_eq!(f(w.displayed_peak_db), -10.0 + (-120.0 - -10.0) * 0.05);
    assert_eq!(f(shown_peak(s(-120.0), s(-120.0))), -120.0);
}

#[test]
fn meter_bar() {
    assert_eq!(f(fill_fraction(s(-60.0))), 0.0);
    assert_eq!(f(fill_fraction(s(-30.0))), 0.5);
    assert_eq!(f(fill_fraction(s(0.0))), 1.0);
    assert_eq!(f(fill_fraction(s(-120.0))), 0.0);
    assert_eq!(f(fill_fraction(s(6.0))), 1.0);
    assert_eq!(peak_bar(s(-2.0)).colour, (220, 50, 50));
    assert_eq!(peak_bar(s(-3.0)).colour, (220, 180, 40));
    assert_eq!(peak_bar(s(-6.0)).colour, (60, 180, 80));
    assert!(peak_bar(s(-119.0)).label.is_none());
    assert_eq!(peak_bar(s(-118.0)).label.map(f), Some(-118.0));
}

// --- tray --------------------------------------------------------------------

#[test]
fn tray_commands() {
    assert_eq!(menu_command(true, false), Some(TrayCmd::Show));
    assert_eq!(menu_command(false, true), Some(TrayCmd::Quit));
    assert_eq!(menu_command(false, false), None);
}

#[test]
fn closing_hides_until_quit() {
    let mut quitting = false;
    assert_eq!(
        window_frame(&mut quitting, &vec![], true),
        vec![WindowAction::CancelClose, WindowAction::Hide]
    );
    assert_eq!(
        window_frame(&mut quitting, &vec![TrayCmd::Show], false),
        vec![
            WindowAction::Show,
            WindowAction::Focus,
            WindowAction::Draw,
            WindowAction::DrawAgain(100)
        ]
    );
    assert!(!quitting);
    assert_eq!(
        window_frame(&mut quitting, &vec![TrayCmd::Show, TrayCmd::Quit, TrayCmd::Show], false),
        vec![WindowAction::Show, WindowAction::Focus, WindowAction::Close]
    );
    assert!(quitting);
    assert!(window_frame(&mut quitting, &vec![], true).is_empty());
}

#[test]
fn icon_matches_its_drawing() {
    let (rgba, w, h) = tray_icon_rgba();
    assert_eq!((w, h, rgba.len()), (16, 16, 1024));
    for y in 0..16usize {
        for x in 0..16usize {
            let dx = x as f32 + 0.5 - 8.0;
            let dy = y as f32 + 0.5 - 7.0;
            let dist = (dx * dx + dy * dy).sqrt();
            let on = (dist >= 4.5 && dist <= 6.5)
                || (dx.abs() < 1.0 && dy > 4.5 && dy < 7.0)
                || (dy > 6.0 && dy < 7.5 && dx.abs() < 2.5);
            let want = if on { [80, 200, 120, 255] } else { [0, 0, 0, 0] };
            let k = (y * 16 + x) * 4;
            assert_eq!(rgba[k..k + 4], want);
        }
    }
}

// --- command line ------------------------------------------------------------

#[test]
fn argument_values() {
    let args = strings(&["micapp", "--input", "a", "--input", "b", "--output"]);
    assert_eq!(arg_value(&args, "--input").as_deref(), Some("a"));
    assert_eq!(arg_value(&args, "--output"), None);
    assert_eq!(arg_value(&args, "--preset"), None);
    assert!(has_flag(&args, "--output") && !has_flag(&args, "--preset"));
}

#[test]
fn arguments_ask_for_one_thing() {
    assert!(matches!(
        parse_args(&strings(&["m", "--input", "--list-devices"])),
        CliAction::ListDevices
    ));
    assert!(matches!(
        parse_args(&strings(&["m", "--save-default-preset", "v.toml", "--input", "a"])),
        CliAction::SaveDefaultPreset(p) if p == "v.toml"
    ));
    match parse_args(&strings(&["m", "--output", "o", "--preset", "p.toml"])) {
        CliAction::Run { preset, input, output } => {
            assert_eq!(preset.as_deref(), Some("p.toml"));
            assert!(input.is_none());
            assert_eq!(output.as_deref(), Some("o"));
        }
        _ => panic!("expected to run"),
    }
    assert!(matches!(parse_args(&strings(&["m", "--preset", "p"])), CliAction::Usage));
    assert_eq!(usage_lines().len(), 7);
    assert_eq!(usage_lines()[0], "micapp — real-time microphone processing");
}

#[test]
fn command_line_messages() {
    assert_eq!(saved_line("p", &Ok(())).unwrap(), "Default preset saved to p");
    assert_eq!(saved_line("p", &Err("e".to_string())).unwrap_err(), "Error: e");
    let (d, line) = run_settings(None).unwrap();
    assert_eq!(f(d.compressor_ratio), 3.0);
    assert!(line.is_none());
    let (_, line) = run_settings(Some(("p".to_string(), Ok(Settings::default())))).unwrap();
    assert_eq!(line.as_deref(), Some("Loaded preset: p"));
    assert_eq!(
        run_settings(Some(("p".to_string(), Err("e".to_string())))).err().as_deref(),
        Some("Error loading preset: e")
    );
}
