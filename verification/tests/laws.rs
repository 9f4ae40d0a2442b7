use micapp::dsp::biquad::{high_pass_taps, run_section, History, Taps};
use micapp::dsp::compressor::gain_reduction_db;
use micapp::dsp::eq::{peak_taps, shelf_taps};
use micapp::dsp::level::smooth;
use micapp::dsp::limiter::{next_gain, target_gain};
use micapp::dsp::{
    BandKind, Compressor, Elementary, EqBand, Gain, Gate, HighPass, Limiter, PeakMeter, Processor,
    SmoothedValue, VoiceChain,
};
use micapp::single::Single;
use micapp::state::Settings;

struct Std;

fn s(x: f32) -> Single {
    Single::from_bits(x.to_bits())
}

fn f(x: Single) -> f32 {
    f32::from_bits(x.to_bits())
}

impl Elementary for Std {
    fn sin(&self, x: Single) -> Single {
        s(f(x).sin())
    }
    fn cos(&self, x: Single) -> Single {
        s(f(x).cos())
    }
    fn exp(&self, x: Single) -> Single {
        s(f(x).exp())
    }
    fn power_of_ten(&self, x: Single) -> Single {
        s(10.0_f32.powf(f(x)))
    }
    fn log10(&self, x: Single) -> Single {
        s(f(x).log10())
    }
    fn sqrt(&self, x: Single) -> Single {
        s(f(x).sqrt())
    }
}

fn singles(xs: &[f32]) -> Vec<Single> {
    xs.iter().map(|&x| s(x)).collect()
}

/// Samples between -2 and 2, the same ones every time.
fn noise(n: usize) -> Vec<Single> {
    let mut state: u32 = 12345;
    (0..n)
        .map(|_| {
            state = state.wrapping_mul(1664525).wrapping_add(1013904223);
            s((state >> 8) as f32 / 4194304.0 - 2.0)
        })
        .collect()
}

#[test]
fn limiter_keeps_every_sample_to_its_ceiling() {
    let mut lim = Limiter::new(&Std);
    lim.prepare(&Std, s(48_000.0), 64);
    let mut block = noise(2000);
    let input = block.clone();
    let mut ceiling = lim.ceiling;
    lim.process(&Std, &mut block);
    for (x, y) in input.iter().zip(&block) {
        let c = f(ceiling.next()) as f64;
        let x = f(*x).abs() as f64;
        let y = f(*y).abs() as f64;
        assert!(y <= x);
        assert!(y <= c * (1.0 + 1.0 / 2097152.0) + x * 2f64.powi(-147));
        if x <= c {
            assert!(y <= c);
        }
    }
    assert!(f(lim.gain) <= 1.0 && f(lim.gain) >= 0.0);
}

#[test]
fn limiter_gain_goes_down_at_once_and_up_gradually() {
    assert_eq!(f(target_gain(s(0.5), s(-2.0))), 0.25);
    assert_eq!(f(target_gain(s(0.5), s(0.5))), 1.0);
    assert_eq!(f(next_gain(s(0.75), s(1.0), s(0.25))), 0.25);
    assert_eq!(f(next_gain(s(0.75), s(0.5), s(1.0))), 0.625);
}

#[test]
fn ceiling_within_one_stays_there() {
    let mut v = SmoothedValue { current: s(1.0), target: s(0.25), coeff: s(0.9) };
    for _ in 0..100 {
        let x = f(v.next());
        assert!((0.0..=1.0).contains(&x));
    }
}

#[test]
fn standing_ceiling_hardly_drifts() {
    let t = 0.891_250_9_f32;
    let c = 0.997_918_8_f32;
    let mut v = SmoothedValue { current: s(t), target: s(t), coeff: s(c) };
    let bound = t as f64 * (1.0 + 8.0 / 16777216.0 / (1.0 - c as f64));
    for _ in 0..5000 {
        assert!(f(v.next()) as f64 <= bound);
    }
}

#[test]
fn unity_gain_hands_samples_through() {
    let mut g = Gain {
        gain_linear: s(1.0),
        current_linear: s(1.0),
        smooth_ms: s(10.0),
        smooth_coeff: s(0.997),
    };
    let input = noise(200);
    let mut block = input.clone();
    g.process(&Std, &mut block);
    assert_eq!(block, input);
    assert_eq!(f(g.current_linear), 1.0);
}

#[test]
fn peak_is_the_largest_amplitude() {
    let mut m = PeakMeter::new();
    let mut block = singles(&[0.25, -0.75, f32::NAN, 0.5]);
    m.process(&Std, &mut block);
    assert_eq!(f(m.peak_linear()), 0.75);
    m.process(&Std, &mut singles(&[0.125]));
    assert_eq!(f(m.peak), 0.75);
}

#[test]
fn gate_stays_open_for_the_hold_time() {
    let mut g = Gate::new();
    g.threshold_linear = s(0.5);
    g.hold_samples = 3;
    // an envelope and a gain without smoothing
    let mut block = singles(&[1.0, 0.25, 0.25, 0.25, 0.25, 0.25]);
    g.process(&Std, &mut block);
    assert_eq!(block, singles(&[1.0, 0.25, 0.25, 0.25, 0.0, 0.0]));
    assert_eq!(g.hold_counter, 0);
}

#[test]
fn gate_never_amplifies() {
    let mut g = Gate::new();
    g.prepare(&Std, s(48_000.0), 64);
    let input = noise(500);
    let mut block = input.clone();
    g.process(&Std, &mut block);
    for (x, y) in input.iter().zip(&block) {
        assert!(f(*y).abs() <= f(*x).abs());
    }
    assert!(g.hold_counter <= g.hold_samples);
}

#[test]
fn fully_open_gate_is_transparent() {
    let mut g = Gate::new();
    g.prepare(&Std, s(48_000.0), 64);
    g.gain = s(1.0);
    g.hold_counter = 10;
    let mut block = singles(&[0.0001]);
    g.process(&Std, &mut block);
    assert_eq!(block, singles(&[0.0001]));
    assert_eq!(f(g.gain), 1.0);
}

#[test]
fn closed_gate_is_silent() {
    let mut g = Gate::new();
    g.prepare(&Std, s(48_000.0), 64);
    let mut block = singles(&[0.001, -0.002, 0.001]);
    g.process(&Std, &mut block);
    assert!(block.iter().all(|&x| f(x) == 0.0));
    assert_eq!(f(g.gain), 0.0);
}

#[test]
fn filters_at_rest_keep_silence() {
    let taps = Taps { b0: s(0.5), b1: s(-1.0), b2: s(0.25), a1: s(-1.5), a2: s(0.75) };
    let mut h = History::silent();
    let mut block = singles(&[0.0; 20]);
    run_section(taps, &mut h, &mut block);
    assert!(block.iter().all(|&x| f(x) == 0.0));
}

#[test]
fn unprepared_filters_are_transparent() {
    let input = noise(50);
    let mut block = input.clone();
    HighPass::new(s(80.0)).process(&Std, &mut block);
    assert_eq!(block, input);
    let mut band = EqBand::new(BandKind::Peak, s(1000.0), s(6.0), s(1.0));
    band.process_band(&mut block);
    assert_eq!(block, input);
}

#[test]
fn flat_bands_are_balanced() {
    let (sin, cos) = (s(0.3), s(0.95));
    let t = peak_taps(s(0.7), sin, cos, s(1.0));
    assert_eq!((f(t.b0), t.b1, t.b2), (1.0, t.a1, t.a2));
    for high in [false, true] {
        let t = shelf_taps(high, sin, cos, s(1.0), s(1.0));
        assert_eq!((f(t.b0), f(t.b1), t.b2), (1.0, f(t.a1), t.a2));
    }
}

#[test]
fn high_pass_blocks_a_constant_signal() {
    let w = 0.01f32;
    let taps = high_pass_taps(s(w.sin()), s(w.cos()));
    assert_eq!(taps.b0, taps.b2);
    assert_eq!(f(taps.b1), -2.0 * f(taps.b0));
    let c = s(0.7);
    let mut h = History { x1: c, x2: c, y1: s(0.0), y2: s(0.0) };
    let mut block = vec![c; 30];
    run_section(taps, &mut h, &mut block);
    assert!(block.iter().all(|&y| f(y) == 0.0));
}

#[test]
fn compressor_reduction() {
    // at 4:1, a signal 4 dB above the threshold comes out 1 dB above it
    assert_eq!(f(gain_reduction_db(s(-20.0), s(4.0), s(-16.0))), 3.0);
    assert_eq!(f(gain_reduction_db(s(-20.0), s(4.0), s(-20.0))), 0.0);
    assert_eq!(f(gain_reduction_db(s(-20.0), s(1.0), s(-10.0))), 0.0);
    let r = f(gain_reduction_db(s(-20.0), s(20.0), s(-10.0)));
    assert!((0.0..=10.0).contains(&r));
}

#[test]
fn smoothing_steps() {
    assert_eq!(f(smooth(s(0.5), s(1.0), s(0.0))), 0.5);
    assert_eq!(f(smooth(s(0.0), s(0.9), s(0.3))), 0.3);
    assert_eq!(f(smooth(s(0.9979), s(1.0), s(1.0))), 1.0);
    for k in 0..1000 {
        let c = k as f32 / 1000.0;
        let up = f(smooth(s(c), s(0.1), s(0.7)));
        assert!(up <= 0.7 * (1.0 + 4.0 / 16777216.0));
    }
}

#[test]
fn bypassed_chain_changes_nothing() {
    let mut chain = VoiceChain::new(&Std);
    chain.prepare(&Std, s(48_000.0), 64);
    let mut off = Settings::default();
    off.gain_enabled = false;
    off.high_pass_enabled = false;
    off.gate_enabled = false;
    off.eq_enabled = false;
    off.compressor_enabled = false;
    off.limiter_enabled = false;
    chain.apply_settings(&Std, &off);
    let input = noise(100);
    let mut block = input.clone();
    chain.process(&Std, &mut block);
    assert_eq!(block, input);
    assert_eq!(f(chain.limiter.gain), 1.0);
    assert!(f(chain.peak_meter.peak) > 1.0);
}

#[test]
fn default_settings_match_a_new_chain() {
    let c = VoiceChain::new(&Std);
    let d = Settings::default();
    assert_eq!(f(c.gain.gain_linear), 10.0_f32.powf(f(d.gain_db) / 20.0));
    assert_eq!(c.high_pass.cutoff_hz, d.high_pass_cutoff_hz);
    assert_eq!(c.gate.threshold_db, d.gate_threshold_db);
    assert_eq!(c.gate.attack_ms, d.gate_attack_ms);
    assert_eq!(c.gate.release_ms, d.gate_release_ms);
    assert_eq!(c.gate.hold_ms, d.gate_hold_ms);
    assert_eq!(c.compressor.threshold_db, d.compressor_threshold_db);
    assert_eq!(c.compressor.ratio, d.compressor_ratio);
    assert_eq!(c.compressor.attack_ms, d.compressor_attack_ms);
    assert_eq!(c.compressor.release_ms, d.compressor_release_ms);
    assert_eq!(c.limiter.ceiling_db, d.limiter_ceiling_db);
    assert_eq!(c.limiter.release_ms, d.limiter_release_ms);
    for i in 0..4 {
        assert_eq!(c.eq.bands[i].freq_hz, d.eq_band_freq_hz[i]);
        assert_eq!(c.eq.bands[i].gain_db, d.eq_band_gain_db[i]);
        assert_eq!(c.eq.bands[i].q, d.eq_band_q[i]);
    }
}

#[test]
fn blocks_can_be_cut_anywhere() {
    let mut settings = Settings::default();
    settings.gate_threshold_db = s(-20.0);
    settings.eq_band_gain_db = [s(3.0), s(-2.0), s(1.0), s(4.0)];
    let mut one = VoiceChain::new(&Std);
    one.prepare(&Std, s(44_100.0), 64);
    one.apply_settings(&Std, &settings);
    let mut two = one.clone();
    let mut whole = noise(300);
    let mut parts = whole.clone();
    one.process(&Std, &mut whole);
    two.process(&Std, &mut parts[..77]);
    two.process(&Std, &mut parts[77..78]);
    two.process(&Std, &mut parts[78..]);
    assert_eq!(whole, parts);
    assert_eq!(one.peak_meter.peak, two.peak_meter.peak);
    assert_eq!(one.gate.hold_counter, two.gate.hold_counter);
}

#[test]
fn new_settings_keep_what_is_running() {
    let mut chain = VoiceChain::new(&Std);
    chain.prepare(&Std, s(48_000.0), 64);
    chain.process(&Std, &mut noise(100));
    let before = chain.clone();
    let mut settings = Settings::default();
    settings.compressor_makeup_db = s(6.0);
    settings.limiter_ceiling_db = s(-6.0);
    settings.gain_db = s(3.0);
    chain.apply_settings(&Std, &settings);
    assert_eq!(chain.gate.envelope, before.gate.envelope);
    assert_eq!(chain.compressor.envelope, before.compressor.envelope);
    assert_eq!(chain.high_pass.history, before.high_pass.history);
    // gains ramp, the ceiling holds at once
    assert_eq!(chain.gain.current_linear, before.gain.current_linear);
    assert_eq!(chain.compressor.makeup.current, before.compressor.makeup.current);
    assert_eq!(f(chain.compressor.makeup.target), 10.0_f32.powf(6.0 / 20.0));
    assert_eq!(chain.limiter.ceiling.current, chain.limiter.ceiling.target);
}

#[test]
fn compressor_prepare_snaps_makeup() {
    let mut c = Compressor::new();
    c.makeup_db = s(6.0);
    c.prepare(&Std, s(48_000.0), 64);
    assert_eq!(c.makeup.current, c.makeup.target);
    c.makeup_db = s(0.0);
    c.retune(&Std, s(48_000.0));
    assert_eq!(f(c.makeup.target), 1.0);
    assert_eq!(f(c.makeup.current), 10.0_f32.powf(6.0 / 20.0));
}

#[test]
fn gain_reports_its_level() {
    let mut g = Gain::new(&Std, s(0.0));
    g.set_db(&Std, s(6.0));
    assert!((f(g.get_db(&Std)) - 6.0).abs() < 1e-4);
    assert_eq!(f(g.current_linear), 1.0);
    let mut v = SmoothedValue::new(s(0.5));
    v.set(s(1.0));
    assert_eq!((f(v.current), f(v.target)), (0.5, 1.0));
    v.snap(s(0.25));
    assert_eq!((f(v.current), f(v.target)), (0.25, 0.25));
}

#[test]
fn smoothed_value_approaches_its_target_exponentially() {
    let mut v = SmoothedValue { current: s(0.25), target: s(2.0), coeff: s(0.9375) };
    let mut left = 1.75_f64;
    let mut last = 0.25_f32;
    for _ in 0..200 {
        let x = f(v.next());
        left *= 0.9375;
        assert!((x as f64 - (2.0 - left)).abs() < 1e-5);
        assert!(x >= last - 1e-6 && x <= 2.0 + 1e-5);
        last = x;
    }
    assert!((last - 2.0).abs() < 1e-4);
}

#[test]
fn smoothed_value_comes_two_thirds_of_the_way_in_its_time() {
    let mut v = SmoothedValue::new(s(0.0));
    v.prepare(&Std, s(10.0), s(48_000.0));
    v.set(s(1.0));
    let mut x = 0.0;
    for _ in 0..480 {
        x = f(v.next());
    }
    assert!((x - 0.632).abs() < 0.001);
    v.snap(s(0.5));
    assert_eq!(f(v.current), 0.5);
    assert!((f(v.next()) - 0.5).abs() < 1e-6);
}

#[test]
fn gain_ramps_without_a_jump() {
    let mut g = Gain::new(&Std, s(0.0));
    g.prepare(&Std, s(48_000.0), 64);
    g.set_db(&Std, s(-20.0));
    let c = f(g.smooth_coeff) as f64;
    let mut block = singles(&[0.5; 64]);
    g.process(&Std, &mut block);
    for (i, y) in block.iter().enumerate() {
        let level = 0.1 + 0.9 * c.powi(i as i32 + 1);
        assert!((f(*y) as f64 - 0.5 * level).abs() < 1e-5);
    }
    g.reset();
    let mut block = singles(&[0.5]);
    g.process(&Std, &mut block);
    assert!((f(block[0]) - 0.05).abs() < 1e-6);
}

#[test]
fn limiter_passes_what_stays_below_its_ceiling() {
    let mut lim = Limiter::new(&Std);
    lim.prepare(&Std, s(48_000.0), 64);
    let quiet: Vec<Single> = noise(500).iter().map(|x| x.times(s(0.25))).collect();
    let mut block = quiet.clone();
    lim.process(&Std, &mut block);
    assert_eq!(block, quiet);
    assert_eq!(f(lim.gain), 1.0);
}

#[test]
fn limiter_recovers_without_falling_back() {
    let mut lim = Limiter::new(&Std);
    lim.prepare(&Std, s(48_000.0), 64);
    let mut over = singles(&[4.0]);
    lim.process(&Std, &mut over);
    let mut last = f(lim.gain);
    assert!(last < 0.25);
    for _ in 0..3000 {
        let mut block = singles(&[0.1]);
        lim.process(&Std, &mut block);
        let gain = f(lim.gain);
        assert!(gain >= last * (1.0 - 4.0 / 16777216.0));
        last = gain;
    }
    assert!(last > 0.6);
}

#[test]
fn cut_undoes_the_equal_boost() {
    for kind in [BandKind::LowShelf, BandKind::Peak, BandKind::HighShelf] {
        let mut p = EqBand::new(kind, s(1_000.0), s(9.0), s(0.7));
        let mut n = EqBand::new(kind, s(1_000.0), s(-9.0), s(0.7));
        p.compute_coeffs(&Std, s(48_000.0));
        n.compute_coeffs(&Std, s(48_000.0));
        let b0 = f(p.taps.b0);
        assert!((f(n.taps.b0) * b0 - 1.0).abs() < 1e-5);
        assert!((f(n.taps.b1) * b0 - f(p.taps.a1)).abs() < 1e-5);
        assert!((f(n.taps.b2) * b0 - f(p.taps.a2)).abs() < 1e-5);
        assert!((f(n.taps.a1) * b0 - f(p.taps.b1)).abs() < 1e-5);
        assert!((f(n.taps.a2) * b0 - f(p.taps.b2)).abs() < 1e-5);
        // one after the other they give the input back
        let input = noise(400);
        let mut block = input.clone();
        p.process_band(&mut block);
        n.process_band(&mut block);
        for (x, y) in input.iter().zip(&block) {
            assert!((f(*x) - f(*y)).abs() < 1e-3);
        }
    }
}

#[test]
fn shelf_ignores_its_q() {
    for kind in [BandKind::LowShelf, BandKind::HighShelf] {
        let mut b = EqBand::new(kind, s(500.0), s(6.0), s(0.7));
        let mut c = EqBand::new(kind, s(500.0), s(6.0), s(9.0));
        b.compute_coeffs(&Std, s(44_100.0));
        c.compute_coeffs(&Std, s(44_100.0));
        assert_eq!(b.taps, c.taps);
    }
}

#[test]
fn two_blocks_at_once_are_two_blocks_in_turn() {
    let mut whole = VoiceChain::new(&Std);
    whole.prepare(&Std, s(48_000.0), 64);
    let mut parts = VoiceChain::new(&Std);
    parts.prepare(&Std, s(48_000.0), 64);
    let mut both = noise(300);
    let mut first = both[..111].to_vec();
    let mut second = both[111..].to_vec();
    whole.process(&Std, &mut both);
    parts.process(&Std, &mut first);
    parts.process(&Std, &mut second);
    first.extend(second);
    assert_eq!(both, first);
    assert_eq!(whole.limiter.gain, parts.limiter.gain);
    assert_eq!(whole.compressor.envelope, parts.compressor.envelope);
    assert_eq!(whole.peak_meter.peak, parts.peak_meter.peak);
}

#[test]
fn reset_chain_behaves_as_a_prepared_one() {
    let mut fresh = VoiceChain::new(&Std);
    fresh.prepare(&Std, s(48_000.0), 64);
    let mut used = VoiceChain::new(&Std);
    used.prepare(&Std, s(48_000.0), 64);
    used.process(&Std, &mut noise(1000));
    used.reset();
    assert_eq!(f(used.peak_meter.peak), 0.0);
    assert_eq!(used.high_pass.taps, fresh.high_pass.taps);
    assert_eq!(used.compressor.makeup.target, fresh.compressor.makeup.target);
    let mut a = noise(200);
    let mut b = a.clone();
    fresh.process(&Std, &mut a);
    used.process(&Std, &mut b);
    for (x, y) in a.iter().zip(&b) {
        assert!((f(*x) - f(*y)).abs() < 1e-4);
    }
    assert!((f(fresh.peak_meter.peak) - f(used.peak_meter.peak)).abs() < 1e-4);
}

#[test]
fn large_cut_undoes_the_equal_boost() {
    for kind in [BandKind::LowShelf, BandKind::Peak, BandKind::HighShelf] {
        let mut p = EqBand::new(kind, s(1_000.0), s(80.0), s(0.7));
        let mut n = EqBand::new(kind, s(1_000.0), s(-80.0), s(0.7));
        p.compute_coeffs(&Std, s(48_000.0));
        n.compute_coeffs(&Std, s(48_000.0));
        let b0 = f(p.taps.b0);
        let near = 1e-3 * (1.0 + b0);
        assert!((f(n.taps.b0) * b0 - 1.0).abs() < 1e-3);
        assert!((f(n.taps.b1) * b0 - f(p.taps.a1)).abs() < 1e-3);
        assert!((f(n.taps.b2) * b0 - f(p.taps.a2)).abs() < 1e-3);
        assert!((f(n.taps.a1) * b0 - f(p.taps.b1)).abs() < near);
        assert!((f(n.taps.a2) * b0 - f(p.taps.b2)).abs() < near);
    }
}

#[test]
fn stream_can_be_cut_into_any_blocks() {
    let mut whole = VoiceChain::new(&Std);
    whole.prepare(&Std, s(48_000.0), 64);
    let mut parts = VoiceChain::new(&Std);
    parts.prepare(&Std, s(48_000.0), 64);
    let mut all = noise(300);
    let mut written: Vec<Single> = Vec::new();
    let mut start: usize = 0;
    for length in [1, 0, 63, 100, 0, 7, 129] {
        let mut block = all[start..start + length].to_vec();
        parts.process(&Std, &mut block);
        written.extend(block);
        start += length;
    }
    whole.process(&Std, &mut all);
    assert_eq!(start, 300);
    assert_eq!(written, all);
    assert_eq!(whole.gate.gain, parts.gate.gain);
    assert_eq!(whole.limiter.ceiling.current, parts.limiter.ceiling.current);
    assert_eq!(whole.peak_meter.peak, parts.peak_meter.peak);
}

#[test]
fn empty_block_changes_nothing() {
    let mut chain = VoiceChain::new(&Std);
    chain.prepare(&Std, s(48_000.0), 64);
    chain.process(&Std, &mut noise(50));
    let before = chain.clone();
    chain.process(&Std, &mut []);
    assert_eq!(chain.high_pass.history, before.high_pass.history);
    assert_eq!(chain.compressor.envelope, before.compressor.envelope);
    assert_eq!(chain.limiter.gain, before.limiter.gain);
    assert_eq!(chain.peak_meter.peak, before.peak_meter.peak);
}

#[test]
fn settled_gain_scales_the_first_sample() {
    let mut gain = Gain::new(&Std, s(0.0));
    gain.set_db(&Std, s(20.0));
    gain.prepare(&Std, s(48_000.0), 64);
    let mut block = singles(&[0.01, -0.02]);
    gain.process(&Std, &mut block);
    assert!((f(block[0]) - 0.1).abs() < 1e-6);
    assert!((f(block[1]) + 0.2).abs() < 1e-6);
    gain.set_db(&Std, s(0.0));
    gain.reset();
    let mut block = singles(&[0.5]);
    gain.process(&Std, &mut block);
    assert!((f(block[0]) - 0.5).abs() < 1e-6);
}

#[test]
fn reset_restores_a_chain_whose_levels_stand_still() {
    for ceiling_db in [0.0, -1.0, -3.0] {
        let mut fresh = VoiceChain::new(&Std);
        fresh.limiter.ceiling_db = s(ceiling_db);
        fresh.prepare(&Std, s(48_000.0), 64);
        let ceiling = fresh.limiter.ceiling.target;
        assert_eq!(smooth(fresh.limiter.ceiling.coeff, ceiling, ceiling), ceiling);
        let mut used = fresh.clone();
        for _ in 0..5 {
            used.process(&Std, &mut noise(500));
        }
        used.reset();
        assert_eq!(used.limiter.ceiling.current, ceiling);
        assert_eq!(f(used.compressor.makeup.current), 1.0);
        let mut a = noise(200);
        let mut b = a.clone();
        fresh.process(&Std, &mut a);
        used.process(&Std, &mut b);
        assert_eq!(a, b);
        assert_eq!(fresh.peak_meter.peak, used.peak_meter.peak);
    }
}

#[test]
fn prepared_limiter_keeps_its_setting_for_long() {
    let mut limiter = Limiter::new(&Std);
    limiter.ceiling_db = s(-6.0);
    limiter.prepare(&Std, s(48_000.0), 64);
    let ceiling = 10f32.powf(-6.0 / 20.0);
    for _ in 0..40 {
        let mut block = noise(1000);
        for x in block.iter_mut() {
            *x = x.times(s(8.0));
        }
        limiter.process(&Std, &mut block);
        for y in &block {
            assert!(f(*y).abs() < ceiling * 1.001);
        }
    }
}
