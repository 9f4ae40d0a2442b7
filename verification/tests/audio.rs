use micapp::audio::callbacks::{
    fan_out, frames, offer_all, peak_db, pull, pull_fading, take_input, EngineOutput,
    PassthroughOutput,
};
use micapp::audio::devices::{
    build_failure, device_names, engine_effect, find_device, first_containing, first_range,
    format_line, monitor_failure, monitor_format, monitor_warning, negotiate_configs, opening_lines,
    passthrough_effect, pick_device, pick_devices, plan_monitor, play_failure, shown_name, side_name,
    stream_error, Choice, FormatRange, Offer, Side, StreamFormat, StreamKind,
};
use micapp::audio::engine::{
    AudioCmd, DeviceError, Engine, EngineAction, EngineEvent, Phase, Waited, CHANGE_MS, POLL_MS,
    RETRY_MS,
};
use micapp::audio::listing::{
    config_line, list_devices, name_or_empty, ConfigRange, ListedDevice,
};
use micapp::audio::monitor::MonitorOutput;
use micapp::audio::passthrough::{
    expects, session_step, SessionAction, SessionEvent, Stage, PATIENCE_MS,
};
use micapp::audio::ring::{primed_ring, settings_slot, SampleReceiver};
use micapp::audio::session::{engine_session, passthrough_session, session_chain};
use micapp::dsp::{Elementary, VoiceChain};
use micapp::single::Single;
use micapp::state::Settings;

struct Std;

fn s(x: f32) -> Single {
    Single::from_bits(x.to_bits())
}

fn f(x: Single) -> f32 {
    f32::from_bits(x.to_bits())
}

impl Elementary for Std {
    fn sin(&self, x: Single) -> Single {
        s(f(x).sin())
    }
    fn cos(&self, x: Single) -> Single {
        s(f(x).cos())
    }
    fn exp(&self, x: Single) -> Single {
        s(f(x).exp())
    }
    fn power_of_ten(&self, x: Single) -> Single {
        s(10.0_f32.powf(f(x)))
    }
    fn log10(&self, x: Single) -> Single {
        s(f(x).log10())
    }
    fn sqrt(&self, x: Single) -> Single {
        s(f(x).sqrt())
    }
}

fn singles(xs: &[f32]) -> Vec<Single> {
    xs.iter().map(|&x| s(x)).collect()
}

fn floats(xs: &[Single]) -> Vec<f32> {
    xs.iter().map(|&x| f(x)).collect()
}

fn drain(rx: &mut SampleReceiver) -> Vec<f32> {
    let mut out = Vec::new();
    while let Some(x) = rx.receive() {
        out.push(f(x));
    }
    out
}

fn bypassed() -> VoiceChain {
    let mut chain = VoiceChain::new(&Std);
    chain.gain_enabled = false;
    chain.high_pass_enabled = false;
    chain.eq_enabled = false;
    chain.gate_enabled = false;
    chain.compressor_enabled = false;
    chain.limiter_enabled = false;
    chain
}

fn some(names: &[&str]) -> Vec<Option<String>> {
    names.iter().map(|n| Some(n.to_string())).collect()
}

// --- rings -------------------------------------------------------------------

#[test]
fn ring_starts_with_silence() {
    let (_tx, mut rx) = primed_ring(8, 3);
    assert_eq!(drain(&mut rx), vec![0.0, 0.0, 0.0]);
}

#[test]
fn primed_ring_does_not_run_dry() {
    let (_tx, mut rx) = primed_ring(8, 3);
    let mut last = s(1.0);
    let mut mono = Vec::new();
    pull_fading(&mut rx, 3, &mut last, &mut mono);
    assert_eq!(floats(&mono), vec![0.0, 0.0, 0.0]);
    assert!(rx.receive().is_none());
}

#[test]
fn ring_keeps_order_and_drops_what_finds_no_room() {
    let (mut tx, mut rx) = primed_ring(3, 0);
    assert!(tx.send(s(1.0)));
    assert!(tx.send(s(2.0)));
    assert!(tx.send(s(3.0)));
    assert!(!tx.send(s(4.0)));
    assert_eq!(rx.receive().map(f), Some(1.0));
    assert!(tx.send(s(5.0)));
    assert_eq!(drain(&mut rx), vec![2.0, 3.0, 5.0]);
    assert!(rx.receive().is_none());
}

#[test]
fn settings_slot_holds_one() {
    let (mut tx, mut rx) = settings_slot();
    assert!(rx.take().is_none());
    let mut first = Settings::default();
    first.gain_db = s(3.0);
    let mut second = Settings::default();
    second.gain_db = s(4.0);
    assert!(tx.post(first));
    assert!(!tx.post(second));
    assert_eq!(rx.take().map(|x| f(x.gain_db)), Some(3.0));
    assert!(rx.take().is_none());
    assert!(tx.post(Settings::default()));
    assert_eq!(rx.take().map(|x| f(x.gain_db)), Some(0.0));
}

// --- callbacks ---------------------------------------------------------------

#[test]
fn frames_of_a_block() {
    assert_eq!(frames(10, 2), 5);
    assert_eq!(frames(11, 2), 5);
    assert_eq!(frames(7, 0), 7);
    assert_eq!(frames(0, 3), 0);
}

#[test]
fn input_takes_the_first_channel() {
    let (mut tx, mut rx) = primed_ring(16, 0);
    take_input(&mut tx, 2, &singles(&[1.0, 9.0, 2.0, 9.0, 3.0, 9.0, 4.0]));
    assert_eq!(drain(&mut rx), vec![1.0, 2.0, 3.0]);
}

#[test]
fn input_without_channels_repeats_the_first_sample() {
    let (mut tx, mut rx) = primed_ring(16, 0);
    take_input(&mut tx, 0, &singles(&[1.0, 2.0, 3.0]));
    assert_eq!(drain(&mut rx), vec![1.0, 1.0, 1.0]);
}

#[test]
fn input_drops_what_finds_no_room() {
    let (mut tx, mut rx) = primed_ring(2, 0);
    take_input(&mut tx, 1, &singles(&[1.0, 2.0, 3.0]));
    assert_eq!(drain(&mut rx), vec![1.0, 2.0]);
}

#[test]
fn offered_samples_arrive() {
    let (mut tx, mut rx) = primed_ring(4, 1);
    offer_all(&mut tx, &singles(&[5.0, 6.0]));
    assert_eq!(drain(&mut rx), vec![0.0, 5.0, 6.0]);
}

#[test]
fn dry_ring_gives_silence() {
    let (mut tx, mut rx) = primed_ring(4, 0);
    tx.send(s(0.5));
    let mut mono = singles(&[7.0, 7.0, 7.0, 7.0]);
    pull(&mut rx, 3, &mut mono);
    assert_eq!(floats(&mono), vec![0.5, 0.0, 0.0]);
}

#[test]
fn dry_ring_fades_out() {
    let (mut tx, mut rx) = primed_ring(4, 0);
    tx.send(s(1.0));
    let mut last = s(0.25);
    let mut mono = Vec::new();
    pull_fading(&mut rx, 3, &mut last, &mut mono);
    assert_eq!(floats(&mono), vec![1.0, 0.9, 0.9 * 0.9]);
    assert_eq!(f(last), 0.9 * 0.9);
    pull_fading(&mut rx, 1, &mut last, &mut mono);
    assert_eq!(floats(&mono), vec![0.9 * 0.9 * 0.9]);
}

#[test]
fn output_repeats_each_sample_on_every_channel() {
    let mut data = singles(&[0.0; 6]);
    fan_out(&singles(&[1.0, 2.0, 3.0]), 2, &mut data);
    assert_eq!(floats(&data), vec![1.0, 1.0, 2.0, 2.0, 3.0, 3.0]);
}

#[test]
fn passthrough_output_plays_the_ring() {
    let (mut tx, rx) = primed_ring(8, 0);
    tx.send(s(0.5));
    tx.send(s(-0.25));
    let mut out = PassthroughOutput { channels: 2, rx, chain: bypassed(), mono: Vec::new() };
    let mut data = singles(&[9.0; 6]);
    out.fill(&Std, &mut data);
    assert_eq!(floats(&data), vec![0.5, 0.5, -0.25, -0.25, 0.0, 0.0]);
    assert_eq!(f(out.chain.peak_meter.peak), 0.5);
}

#[test]
fn engine_output_meters_and_feeds_the_monitor() {
    let (mut tx, rx) = primed_ring(8, 0);
    let (feed, mut heard) = primed_ring(8, 0);
    let (_post, settings) = settings_slot();
    let mut out = EngineOutput {
        channels: 1,
        rx,
        chain: bypassed(),
        mono: Vec::new(),
        last: s(0.0),
        settings,
        monitor: feed,
    };
    tx.send(s(0.5));
    tx.send(s(-0.75));
    let mut data = singles(&[9.0; 3]);
    let peak = out.fill(&Std, false, &mut data);
    assert_eq!(f32::from_bits(peak), 0.75);
    assert_eq!(floats(&data), vec![0.5, -0.75, -0.75 * 0.9]);
    assert!(drain(&mut heard).is_empty());

    // the meter starts anew, and an active monitor hears the block
    tx.send(s(0.125));
    let mut data = singles(&[9.0; 1]);
    let peak = out.fill(&Std, true, &mut data);
    assert_eq!(f32::from_bits(peak), 0.125);
    assert_eq!(drain(&mut heard), vec![0.125]);
}

#[test]
fn engine_output_takes_on_the_settings_it_is_given() {
    let (mut tx, rx) = primed_ring(8, 0);
    let (feed, _heard) = primed_ring(8, 0);
    let (_post, settings) = settings_slot();
    let mut chain = VoiceChain::new(&Std);
    chain.prepare(&Std, s(48_000.0), 64);
    let mut out = EngineOutput {
        channels: 1,
        rx,
        chain,
        mono: Vec::new(),
        last: s(0.0),
        settings,
        monitor: feed,
    };
    let mut given = Settings::default();
    given.high_pass_cutoff_hz = s(200.0);
    given.limiter_enabled = false;
    tx.send(s(0.5));
    let mut data = singles(&[9.0]);
    out.fill_with(&Std, None, false, &mut data);
    assert_eq!(f(out.chain.high_pass.cutoff_hz), 80.0);
    assert!(out.chain.limiter_enabled);
    out.fill_with(&Std, Some(given), false, &mut data);
    assert_eq!(f(out.chain.high_pass.cutoff_hz), 200.0);
    assert!(!out.chain.limiter_enabled);
}

#[test]
fn engine_output_takes_on_posted_settings() {
    let (mut tx, rx) = primed_ring(8, 0);
    let (feed, _heard) = primed_ring(8, 0);
    let (mut post, settings) = settings_slot();
    let mut chain = VoiceChain::new(&Std);
    chain.prepare(&Std, s(48_000.0), 64);
    let mut out = EngineOutput {
        channels: 1,
        rx,
        chain,
        mono: Vec::new(),
        last: s(0.0),
        settings,
        monitor: feed,
    };
    let mut off = Settings::default();
    off.gain_enabled = false;
    off.high_pass_enabled = false;
    off.gate_enabled = false;
    off.eq_enabled = false;
    off.compressor_enabled = false;
    off.limiter_enabled = false;
    post.post(off);
    tx.send(s(2.0));
    let mut data = singles(&[0.0]);
    out.fill(&Std, false, &mut data);
    assert_eq!(floats(&data), vec![2.0]);
}

#[test]
fn peak_level_from_bits() {
    assert_eq!(f(peak_db(&Std, 1.0f32.to_bits())), 0.0);
    assert_eq!(f(peak_db(&Std, 0)), -120.0);
}

// --- monitor -----------------------------------------------------------------

#[test]
fn monitor_at_the_same_rate_takes_one_sample_per_frame() {
    let (mut tx, rx) = primed_ring(8, 0);
    for k in 1..5 {
        tx.send(s(k as f32));
    }
    let mut mon = MonitorOutput::new(2, rx, 48_000, 48_000);
    let mut data = singles(&[9.0; 6]);
    mon.fill(&mut data);
    assert_eq!(floats(&data), vec![1.0, 1.0, 2.0, 2.0, 3.0, 3.0]);
    assert_eq!(drain(&mut mon.rx), vec![4.0]);
}

#[test]
fn monitor_at_half_the_rate_skips_samples() {
    let (mut tx, rx) = primed_ring(8, 0);
    for k in 1..7 {
        tx.send(s(k as f32));
    }
    let mut mon = MonitorOutput::new(1, rx, 48_000, 24_000);
    let mut data = singles(&[9.0; 3]);
    mon.fill(&mut data);
    assert_eq!(floats(&data), vec![2.0, 4.0, 6.0]);
}

#[test]
fn monitor_at_twice_the_rate_repeats_samples() {
    let (mut tx, rx) = primed_ring(8, 0);
    tx.send(s(1.0));
    let mut mon = MonitorOutput::new(1, rx, 24_000, 48_000);
    let mut data = singles(&[9.0; 4]);
    mon.fill(&mut data);
    // the first frame has not reached a sample yet; a dry ring is silent
    assert_eq!(floats(&data), vec![0.0, 1.0, 1.0, 0.0]);
}

#[test]
fn monitor_resamples_like_floating_point() {
    let (mut tx, rx) = primed_ring(4096, 0);
    for k in 0..4000 {
        tx.send(s(k as f32));
    }
    let mut mon = MonitorOutput::new(1, rx, 48_000, 44_100);
    let ratio = 48_000.0f64 / 44_100.0f64;
    let mut pos = 0.0f64;
    let mut next = 0.0f32;
    let mut last = 0.0f32;
    let mut data = singles(&[0.0; 3000]);
    mon.fill(&mut data);
    for x in floats(&data) {
        pos += ratio;
        while pos >= 1.0 {
            last = next;
            next += 1.0;
            pos -= 1.0;
        }
        assert_eq!(x, last);
    }
    assert_eq!(mon.pos.to_bits(), pos.to_bits());
}

#[test]
fn monitor_fills_a_cut_frame() {
    let (mut tx, rx) = primed_ring(8, 0);
    tx.send(s(1.0));
    tx.send(s(2.0));
    let mut mon = MonitorOutput::new(2, rx, 8_000, 8_000);
    let mut data = singles(&[9.0; 3]);
    mon.fill(&mut data);
    assert_eq!(floats(&data), vec![1.0, 1.0, 2.0]);
}

// --- sessions ----------------------------------------------------------------

#[test]
fn passthrough_session_starts_with_its_latency() {
    let mut session = passthrough_session(&Std, 48_000, 2, &Settings::default());
    assert_eq!(session.output.channels, 2);
    assert_eq!(f(session.output.chain.sample_rate), 48_000.0);
    assert_eq!(session.output.chain.max_block_size, 4096);
    let mut room = 0;
    while session.input.send(s(1.0)) {
        room += 1;
    }
    assert_eq!(room, 4096 * 3);
    let all = drain(&mut session.output.rx);
    assert_eq!(all.len(), 4096 * 4);
    assert!(all[..4096].iter().all(|&x| x == 0.0));
}

#[test]
fn engine_session_starts_half_full() {
    let (_post, incoming) = settings_slot();
    let mut settings = Settings::default();
    settings.gate_threshold_db = s(-55.0);
    let mut session = engine_session(&Std, 44_100, 1, &settings, incoming);
    assert_eq!(f(session.output.chain.gate.threshold_db), -55.0);
    assert_eq!(session.output.chain.max_block_size, 2048);
    assert_eq!(drain(&mut session.output.rx).len(), 8192);
    assert_eq!(drain(&mut session.monitor).len(), 2048);
}

#[test]
fn session_chain_follows_the_settings() {
    let mut settings = Settings::default();
    settings.gain_db = s(6.0);
    settings.compressor_enabled = false;
    let chain = session_chain(&Std, 96_000, 256, &settings);
    assert_eq!(f(chain.gain.gain_linear), 10.0_f32.powf(6.0 / 20.0));
    assert!(!chain.compressor_enabled);
    assert_eq!(f(chain.sample_rate), 96_000.0);
}

// --- devices -----------------------------------------------------------------

#[test]
fn devices_are_found_by_part_of_their_name() {
    let names = some(&["Built-in Microphone", "BlackHole 2ch", "blackhole 16ch"]);
    assert_eq!(find_device(&names, "BLACKHOLE"), Some(1));
    assert_eq!(find_device(&names, "16"), Some(2));
    assert_eq!(find_device(&names, "USB"), None);
    assert_eq!(find_device(&names, ""), Some(0));
    assert_eq!(find_device(&vec![None, Some("Äther".to_string())], "ÄTHER"), Some(1));
    assert_eq!(find_device(&vec![None], ""), None);
}

#[test]
fn containing_is_letter_for_letter() {
    let names = some(&["abc", "xabcx"]);
    assert_eq!(first_containing(&names, "xab"), Some(1));
    assert_eq!(first_containing(&names, "ABC"), None);
    assert_eq!(first_containing(&names, "abcd"), None);
}

#[test]
fn picking_a_device() {
    let listed = Some(some(&["Mic A", "Mic B"]));
    assert!(matches!(
        pick_device(Side::Input, Some("mic b"), &listed, false),
        Ok(Choice::Listed(1))
    ));
    assert!(matches!(pick_device(Side::Input, None, &None, true), Ok(Choice::Default)));
    match pick_device(Side::Output, Some("cable"), &listed, true) {
        Err(DeviceError::NotFound(msg)) => assert_eq!(msg, "no output device matching 'cable'"),
        _ => panic!("expected an error"),
    }
    match pick_device(Side::Input, Some("cable"), &None, true) {
        Err(DeviceError::NotFound(msg)) => assert_eq!(msg, "no input device matching 'cable'"),
        _ => panic!("expected an error"),
    }
    match pick_device(Side::Input, None, &listed, false) {
        Err(DeviceError::NotFound(msg)) => assert_eq!(msg, "no default input device"),
        _ => panic!("expected an error"),
    }
}

#[test]
fn picking_both_devices() {
    let offer = |wanted: Option<&'static str>, has_default: bool| Offer {
        wanted,
        listed: Some(some(&["A", "B"])),
        has_default,
    };
    assert!(matches!(
        pick_devices(&offer(Some("b"), false), &offer(None, true)),
        Ok((Choice::Listed(1), Choice::Default))
    ));
    match pick_devices(&offer(Some("x"), false), &offer(Some("y"), false)) {
        Err(DeviceError::NotFound(msg)) => assert_eq!(msg, "no input device matching 'x'"),
        _ => panic!("expected an error"),
    }
    match pick_devices(&offer(Some("a"), false), &offer(None, false)) {
        Err(DeviceError::NotFound(msg)) => assert_eq!(msg, "no default output device"),
        _ => panic!("expected an error"),
    }
}

#[test]
fn stream_messages() {
    assert_eq!(stream_error(StreamKind::Input, "e"), "input: e");
    assert_eq!(stream_error(StreamKind::Output, "e"), "output: e");
    assert_eq!(stream_error(StreamKind::Monitor, "e"), "monitor: e");
    assert_eq!(monitor_warning("e"), "Warning: could not build monitor stream: e");
}

#[test]
fn output_rate_is_authoritative() {
    let out = StreamFormat { channels: 2, sample_rate: 48_000 };
    let ranges = vec![
        FormatRange { channels: 1, min_rate: 8_000, max_rate: 44_100 },
        FormatRange { channels: 4, min_rate: 44_100, max_rate: 96_000 },
        FormatRange { channels: 2, min_rate: 48_000, max_rate: 48_000 },
    ];
    assert_eq!(first_range(&ranges, 48_000), Some(1));
    let own = StreamFormat { channels: 2, sample_rate: 44_100 };
    let (i, o) = negotiate_configs(Ok(out), Some(ranges), Some(own)).unwrap();
    assert_eq!(o, out);
    assert_eq!(i, StreamFormat { channels: 4, sample_rate: 48_000 });
}

#[test]
fn input_falls_back_to_its_own_rate() {
    let out = StreamFormat { channels: 2, sample_rate: 192_000 };
    let ranges = vec![FormatRange { channels: 1, min_rate: 8_000, max_rate: 44_100 }];
    let own = StreamFormat { channels: 2, sample_rate: 44_100 };
    assert_eq!(first_range(&ranges, 192_000), None);
    let (i, _) = negotiate_configs(Ok(out), Some(ranges), Some(own)).unwrap();
    assert_eq!(i, own);
    let (i, _) = negotiate_configs(Ok(out), None, None).unwrap();
    assert_eq!(i, StreamFormat { channels: 1, sample_rate: 192_000 });
    match negotiate_configs(Err("busy".to_string()), None, None) {
        Err(DeviceError::StreamBuildFailed(msg)) => assert_eq!(msg, "no output config: busy"),
        _ => panic!("expected an error"),
    }
}

#[test]
fn lines_about_open_devices() {
    let a = StreamFormat { channels: 1, sample_rate: 44_100 };
    let b = StreamFormat { channels: 2, sample_rate: 48_000 };
    let mic = Some("Mic".to_string());
    assert_eq!(format_line("Monitor: ", "Head", b), "Monitor: Head — 48000 Hz, 2ch");
    assert_eq!(
        opening_lines(&mic, &None, b, b, passthrough_effect()),
        vec!["Input:  Mic — 48000 Hz, 2ch", "Output: <unknown> — 48000 Hz, 2ch"]
    );
    assert_eq!(
        opening_lines(&mic, &mic, a, b, passthrough_effect())[2],
        "Warning: sample rate mismatch (44100 Hz in vs 48000 Hz out). \
         Resampling is not yet implemented — audio will be pitched wrong."
    );
    assert!(opening_lines(&mic, &mic, a, b, engine_effect())[2].ends_with("audio may sound wrong."));
    assert_eq!(shown_name(&None), "<unknown>");
    assert_eq!(side_name(Side::Input), "input");
    assert_eq!(side_name(Side::Output), "output");
}

#[test]
fn monitor_plans() {
    let listed = Some(some(&["Speakers", "Headphones"]));
    let plan = plan_monitor(true, Some("head"), &listed);
    assert_eq!(plan.device, Some(1));
    assert!(plan.warning.is_none());
    let plan = plan_monitor(true, Some("none"), &listed);
    assert_eq!(plan.device, None);
    assert_eq!(
        plan.warning.as_deref(),
        Some("Warning: monitor device not found, monitoring disabled.")
    );
    let plan = plan_monitor(true, None, &listed);
    assert!(plan.device.is_none() && plan.warning.is_none());
    // a monitor that is off is opened all the same, to be switched on later
    let plan = plan_monitor(false, Some("head"), &listed);
    assert_eq!(plan.device, Some(1));
    assert!(plan.warning.is_none());
    let plan = plan_monitor(false, Some("none"), &listed);
    assert!(plan.device.is_none() && plan.warning.is_none());
    let plan = plan_monitor(true, Some("head"), &None);
    assert!(plan.device.is_none() && plan.warning.is_some());
}

#[test]
fn monitor_formats() {
    let good = StreamFormat { channels: 2, sample_rate: 48_000 };
    let bad = StreamFormat { channels: 0, sample_rate: 48_000 };
    for on in [true, false] {
        match monitor_format(on, Ok(good)) {
            Ok(Some(f)) => assert_eq!((f.channels, f.sample_rate), (2, 48_000)),
            _ => panic!("expected the format"),
        }
    }
    assert!(matches!(monitor_format(true, Ok(bad)), Ok(Some(_))));
    assert!(matches!(monitor_format(false, Ok(bad)), Ok(None)));
    assert!(matches!(monitor_format(false, Err("x".to_string())), Ok(None)));
    match monitor_format(true, Err("x".to_string())) {
        Err(DeviceError::StreamBuildFailed(msg)) => assert_eq!(msg, "monitor config: x"),
        _ => panic!("expected an error"),
    }
}

#[test]
fn monitor_that_was_off_is_heard_once_it_is_on() {
    let (_post, incoming) = settings_slot();
    let mut session = engine_session(&Std, 48_000, 1, &Settings::default(), incoming);
    session.output.chain = bypassed();
    let mut heard = MonitorOutput::new(1, session.monitor, 48_000, 48_000);
    let mut silence = singles(&[9.0; 2048]);
    heard.fill(&mut silence);
    drain(&mut session.output.rx);
    session.input.send(s(0.5));
    let mut data = singles(&[0.0]);
    session.output.fill(&Std, false, &mut data);
    let mut out = singles(&[9.0]);
    heard.fill(&mut out);
    assert_eq!(floats(&out), vec![0.0]);
    session.input.send(s(0.25));
    session.output.fill(&Std, true, &mut data);
    heard.fill(&mut out);
    assert_eq!(floats(&out), vec![0.25]);
    session.input.send(s(0.125));
    session.output.fill(&Std, false, &mut data);
    heard.fill(&mut out);
    assert_eq!(floats(&out), vec![0.0]);
}

#[test]
fn stream_build_errors() {
    match build_failure(Side::Input, "x") {
        DeviceError::StreamBuildFailed(msg) => assert_eq!(msg, "failed to build input stream: x"),
        DeviceError::NotFound(_) => panic!("wrong error"),
    }
    match play_failure(Side::Output, "z") {
        DeviceError::StreamBuildFailed(msg) => assert_eq!(msg, "failed to start output stream: z"),
        DeviceError::NotFound(_) => panic!("wrong error"),
    }
    match monitor_failure("y") {
        DeviceError::StreamBuildFailed(msg) => assert_eq!(msg, "monitor config: y"),
        DeviceError::NotFound(_) => panic!("wrong error"),
    }
}

#[test]
fn names_of_devices() {
    assert_eq!(
        device_names(&Some(vec![Some("a".to_string()), None, Some("b".to_string())])),
        vec!["a", "b"]
    );
    assert!(device_names(&None).is_empty());
}

// --- listing -----------------------------------------------------------------

fn range(channels: u16, min_hz: u32, max_hz: u32) -> ConfigRange {
    ConfigRange { channels, min_hz, max_hz, format: "f32".to_string() }
}

#[test]
fn config_lines() {
    assert_eq!(config_line(&range(1, 48_000, 48_000)), "    48000 Hz, mono, f32");
    assert_eq!(config_line(&range(2, 8_000, 96_000)), "    8000–96000 Hz, stereo, f32");
    assert_eq!(config_line(&range(16, 0, 4_294_967_295)), "    0–4294967295 Hz, 16ch, f32");
    assert_eq!(config_line(&range(0, 7, 7)), "    7 Hz, 0ch, f32");
}

#[test]
fn listing_of_devices() {
    let inputs = Ok(vec![
        ListedDevice {
            name: Some("Mic".to_string()),
            configs: Ok(vec![range(1, 44_100, 48_000), range(2, 48_000, 48_000)]),
        },
        ListedDevice { name: None, configs: Err("gone".to_string()) },
    ]);
    let lines = list_devices(&Some("Mic".to_string()), &inputs, &None, &Err("no host".to_string()));
    assert_eq!(
        lines,
        vec![
            "Input devices:",
            "  Mic (default)",
            "    44100–48000 Hz, mono, f32",
            "    48000 Hz, stereo, f32",
            "  <unknown>",
            "    (could not query configs: gone)",
            "",
            "Output devices:",
            "  error listing output devices: no host",
        ]
    );
}

#[test]
fn listing_of_no_devices() {
    let lines = list_devices(&None, &Ok(vec![]), &None, &Ok(vec![]));
    assert_eq!(
        lines,
        vec!["Input devices:", "  none found", "", "Output devices:", "  none found"]
    );
    assert_eq!(name_or_empty(&None), "");
    assert_eq!(name_or_empty(&Some("x".to_string())), "x");
}

// --- engine ------------------------------------------------------------------

fn engine() -> Engine {
    let (e, first) = Engine::new(
        Some("mic".to_string()),
        None,
        Settings::default(),
        Some("head".to_string()),
        true,
    );
    assert_eq!(first, EngineAction::PollCommand);
    e
}

fn change() -> AudioCmd {
    AudioCmd::ChangeDevices {
        input_name: None,
        output_name: Some("cable".to_string()),
        monitor_name: None,
        monitor_enabled: false,
    }
}

fn update(db: f32) -> AudioCmd {
    let mut x = Settings::default();
    x.gain_db = s(db);
    AudioCmd::UpdateSettings(Box::new(x))
}

fn running(monitor: bool) -> Engine {
    let mut e = engine();
    assert_eq!(e.step(EngineEvent::Command(None)).next, EngineAction::Start);
    assert_eq!(e.step(EngineEvent::Started(Ok(monitor))).next, EngineAction::PlayInput);
    assert_eq!(e.step(EngineEvent::Played(Ok(()))).next, EngineAction::PlayOutput);
    let step = e.step(EngineEvent::Played(Ok(())));
    if monitor {
        assert_eq!(step.next, EngineAction::PlayMonitor);
        assert_eq!(e.step(EngineEvent::Played(Ok(()))).next, EngineAction::Wait(POLL_MS));
    } else {
        assert_eq!(step.next, EngineAction::Wait(POLL_MS));
    }
    assert_eq!(e.phase, Phase::Running);
    e
}

#[test]
fn engine_drains_commands_before_it_connects() {
    let mut e = engine();
    let step = e.step(EngineEvent::Command(Some(change())));
    assert_eq!(step.next, EngineAction::PollCommand);
    assert!(e.input_name.is_none());
    assert_eq!(e.output_name.as_deref(), Some("cable"));
    assert!(e.monitor_name.is_none() && !e.monitor_enabled);
    let step = e.step(EngineEvent::Command(Some(update(5.0))));
    assert_eq!(step.next, EngineAction::PollCommand);
    assert!(step.post.is_none());
    assert_eq!(f(e.settings.gain_db), 5.0);
    assert_eq!(e.step(EngineEvent::Command(None)).next, EngineAction::Start);
}

#[test]
fn engine_stops_while_it_drains() {
    let mut e = engine();
    let step = e.step(EngineEvent::Command(Some(AudioCmd::Stop)));
    assert_eq!(step.next, EngineAction::Exit);
    assert!(!step.release);
    assert!(!e.awaits(&EngineEvent::Rested));
    assert!(!e.awaits(&EngineEvent::Command(None)));
}

#[test]
fn engine_retries_when_devices_are_missing() {
    let mut e = engine();
    e.step(EngineEvent::Command(None));
    let step = e.step(EngineEvent::Started(Err(DeviceError::NotFound("x".to_string()))));
    assert_eq!(step.warnings, vec!["Device not found: x", "Retrying in 2 seconds..."]);
    assert_eq!(step.next, EngineAction::Rest(RETRY_MS));
    assert!(!step.release);
    let step = e.step(EngineEvent::Rested);
    assert!(!step.release);
    assert_eq!(step.next, EngineAction::PollCommand);
    e.step(EngineEvent::Command(None));
    let step = e.step(EngineEvent::Started(Err(DeviceError::StreamBuildFailed("y".to_string()))));
    assert_eq!(step.warnings, vec!["Failed to start streams: y", "Retrying in 2 seconds..."]);
    assert_eq!(RETRY_MS, 2000);
}

#[test]
fn engine_retries_when_streams_do_not_play() {
    let mut e = engine();
    e.step(EngineEvent::Command(None));
    e.step(EngineEvent::Started(Ok(true)));
    let step = e.step(EngineEvent::Played(Err("a".to_string())));
    assert_eq!(step.warnings, vec!["Failed to start input stream: a"]);
    assert_eq!(step.next, EngineAction::Rest(RETRY_MS));
    assert!(!step.release);
    assert!(e.step(EngineEvent::Rested).release);

    e.step(EngineEvent::Command(None));
    e.step(EngineEvent::Started(Ok(true)));
    e.step(EngineEvent::Played(Ok(())));
    let step = e.step(EngineEvent::Played(Err("b".to_string())));
    assert_eq!(step.warnings, vec!["Failed to start output stream: b"]);
    assert!(e.step(EngineEvent::Rested).release);
}

#[test]
fn engine_runs_without_its_monitor() {
    let mut e = engine();
    e.step(EngineEvent::Command(None));
    e.step(EngineEvent::Started(Ok(true)));
    e.step(EngineEvent::Played(Ok(())));
    e.step(EngineEvent::Played(Ok(())));
    let step = e.step(EngineEvent::Played(Err("c".to_string())));
    assert_eq!(step.warnings, vec!["Warning: failed to start monitor stream: c"]);
    assert_eq!(step.next, EngineAction::Wait(200));
    assert_eq!(e.phase, Phase::Running);
}

#[test]
fn running_engine_serves_commands() {
    let mut e = running(true);
    assert_eq!(e.step(EngineEvent::Waited(Waited::Timeout)).next, EngineAction::PollCommand);
    let step = e.step(EngineEvent::Command(Some(update(-3.0))));
    assert_eq!(step.post.map(|x| f(x.gain_db)), Some(-3.0));
    assert_eq!(f(e.settings.gain_db), -3.0);
    assert_eq!(step.next, EngineAction::PollCommand);
    assert_eq!(e.step(EngineEvent::Command(None)).next, EngineAction::Wait(POLL_MS));
    e.step(EngineEvent::Waited(Waited::Timeout));
    let step = e.step(EngineEvent::Command(Some(change())));
    assert_eq!(step.warnings, vec!["Device change requested, reconnecting..."]);
    assert!(step.release);
    assert_eq!(step.next, EngineAction::Rest(CHANGE_MS));
    assert_eq!(CHANGE_MS, 100);
    assert_eq!(e.output_name.as_deref(), Some("cable"));
    assert!(!e.step(EngineEvent::Rested).release);
}

#[test]
fn running_engine_stops_and_closes() {
    let mut e = running(false);
    e.step(EngineEvent::Waited(Waited::Timeout));
    let step = e.step(EngineEvent::Command(Some(AudioCmd::Stop)));
    assert!(step.release);
    assert_eq!(step.next, EngineAction::Exit);
    assert_eq!(e.phase, Phase::Stopped);
}

#[test]
fn running_engine_reconnects_after_an_error() {
    let mut e = running(false);
    let step = e.step(EngineEvent::Waited(Waited::Failed("input: lost".to_string())));
    assert_eq!(
        step.warnings,
        vec!["Stream error: input: lost", "Attempting to reconnect in 2 seconds..."]
    );
    assert!(step.release);
    assert_eq!(step.next, EngineAction::Rest(RETRY_MS));
    let mut e = running(false);
    let step = e.step(EngineEvent::Waited(Waited::Closed));
    assert_eq!(step.warnings[0], "Stream channel closed unexpectedly.");
    assert!(step.release);
}

// --- plain session -----------------------------------------------------------

#[test]
fn plain_session_runs_and_reconnects() {
    let mut stage = Stage::Opening;
    let step = session_step(&mut stage, SessionEvent::Opened(Ok(())));
    assert_eq!(step.news, vec!["Running — press Ctrl+C to stop."]);
    assert!(step.warnings.is_empty());
    assert_eq!(step.next, SessionAction::Wait(PATIENCE_MS));
    let step = session_step(&mut stage, SessionEvent::Waited(Waited::Timeout));
    assert_eq!(step.next, SessionAction::Wait(5000));
    let step = session_step(&mut stage, SessionEvent::Waited(Waited::Failed("e".to_string())));
    assert_eq!(
        step.warnings,
        vec!["Stream error: e", "Attempting to reconnect in 2 seconds..."]
    );
    assert!(step.release);
    assert_eq!(step.next, SessionAction::Rest(2000));
    let step = session_step(&mut stage, SessionEvent::Rested);
    assert_eq!(step.next, SessionAction::Open);
    assert_eq!(stage, Stage::Opening);
}

#[test]
fn plain_session_says_why_it_cannot_open() {
    let mut stage = Stage::Opening;
    let missing = SessionEvent::Opened(Err(DeviceError::NotFound("n".to_string())));
    assert!(expects(stage, &missing));
    let step = session_step(&mut stage, missing);
    assert_eq!(
        step.warnings,
        vec![
            "Device not found: n",
            "Retrying in 2 seconds — plug in your device or check the name."
        ]
    );
    assert_eq!(stage, Stage::Resting);
    assert!(!expects(stage, &SessionEvent::Opened(Ok(()))));
    session_step(&mut stage, SessionEvent::Rested);
    let broken = SessionEvent::Opened(Err(DeviceError::StreamBuildFailed("b".to_string())));
    let step = session_step(&mut stage, broken);
    assert_eq!(step.warnings, vec!["Failed to start streams: b", "Retrying in 2 seconds..."]);
    let mut stage = Stage::Running;
    let step = session_step(&mut stage, SessionEvent::Waited(Waited::Closed));
    assert_eq!(step.warnings[0], "Stream channel closed unexpectedly.");
}
