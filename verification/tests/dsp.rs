use micapp::dsp::{
    Compressor, Elementary, Gain, Gate, HighPass, Limiter, PeakMeter, Processor, VoiceChain,
};
use micapp::single::Single;

struct Std;

fn s(x: f32) -> Single {
    Single::from_bits(x.to_bits())
}

fn f(x: Single) -> f32 {
    f32::from_bits(x.to_bits())
}

impl Elementary for Std {
    fn sin(&self, x: Single) -> Single {
        s(f(x).sin())
    }
    fn cos(&self, x: Single) -> Single {
        s(f(x).cos())
    }
    fn exp(&self, x: Single) -> Single {
        s(f(x).exp())
    }
    fn power_of_ten(&self, x: Single) -> Single {
        s(10.0_f32.powf(f(x)))
    }
    fn log10(&self, x: Single) -> Single {
        s(f(x).log10())
    }
    fn sqrt(&self, x: Single) -> Single {
        s(f(x).sqrt())
    }
}

const MINUS_INF_DB: f32 = -120.0;
const SAMPLE_RATE: f32 = 48_000.0;
const BLOCK: usize = 512;

fn linear_to_db(x: f32) -> f32 {
    f(micapp::dsp::linear_to_db(&Std, s(x)))
}

fn db_to_linear(x: f32) -> f32 {
    f(micapp::dsp::db_to_linear(&Std, s(x)))
}

fn run<P: Processor>(p: &mut P, buf: &mut [f32]) {
    let mut block: Vec<Single> = buf.iter().map(|&x| s(x)).collect();
    p.process(&Std, &mut block);
    for (x, y) in buf.iter_mut().zip(block) {
        *x = f(y);
    }
}

fn run_chain(chain: &mut VoiceChain, buf: &mut [f32]) {
    let mut block: Vec<Single> = buf.iter().map(|&x| s(x)).collect();
    chain.process(&Std, &mut block);
    for (x, y) in buf.iter_mut().zip(block) {
        *x = f(y);
    }
}

fn sine_block(freq_hz: f32, amplitude: f32, sample_rate: f32, len: usize) -> Vec<f32> {
    (0..len)
        .map(|i| {
            amplitude
                * (2.0 * std::f32::consts::PI * freq_hz * i as f32 / sample_rate).sin()
        })
        .collect()
}

fn rms(buf: &[f32]) -> f32 {
    let sum_sq: f32 = buf.iter().map(|&s| s * s).sum();
    (sum_sq / buf.len() as f32).sqrt()
}

// --- db_to_linear / linear_to_db ---

#[test]
fn db_linear_roundtrip() {
    for db in [-60.0, -20.0, -6.0, 0.0, 6.0, 20.0] {
        let roundtrip = linear_to_db(db_to_linear(db));
        assert!(
            (roundtrip - db).abs() < 0.001,
            "roundtrip failed for {db} dB: got {roundtrip}"
        );
    }
}

#[test]
fn zero_db_is_unity() {
    assert!((db_to_linear(0.0) - 1.0).abs() < 1e-6);
}

#[test]
fn minus_6db_is_roughly_half() {
    let half = db_to_linear(-6.0206);
    assert!((half - 0.5).abs() < 0.0001);
}

#[test]
fn linear_to_db_zero_returns_minus_inf() {
    assert_eq!(linear_to_db(0.0), MINUS_INF_DB);
}

// --- Gain ---

#[test]
fn gain_zero_db_is_transparent() {
    let mut g = Gain::new(&Std, s(0.0));
    let mut buf = vec![0.5_f32; 8];
    run(&mut g, &mut buf);
    for s in &buf {
        assert!((*s - 0.5).abs() < 1e-6);
    }
}

#[test]
fn gain_minus_6db_halves_amplitude() {
    let mut g = Gain::new(&Std, s(-6.0206));
    let mut buf = vec![1.0_f32; 8];
    run(&mut g, &mut buf);
    for s in &buf {
        assert!((*s - 0.5).abs() < 0.0001, "expected ~0.5, got {s}");
    }
}

#[test]
fn gain_silence_stays_silent() {
    let mut g = Gain::new(&Std, s(20.0));
    let mut buf = vec![0.0_f32; 64];
    run(&mut g, &mut buf);
    for s in &buf {
        assert_eq!(*s, 0.0);
    }
}

#[test]
fn gain_set_db_updates_level() {
    let mut g = Gain::new(&Std, s(0.0));
    g.set_db(&Std, s(-20.0));
    let mut buf = vec![1.0_f32; 1];
    run(&mut g, &mut buf);
    let expected = db_to_linear(-20.0);
    assert!((buf[0] - expected).abs() < 1e-6);
}

// --- PeakMeter ---

#[test]
fn peak_meter_silence_reads_minus_inf() {
    let mut m = PeakMeter::new();
    let mut buf = vec![0.0_f32; BLOCK];
    run(&mut m, &mut buf);
    assert_eq!(f(m.peak_db(&Std)), MINUS_INF_DB);
}

#[test]
fn peak_meter_detects_full_scale() {
    let mut m = PeakMeter::new();
    let mut buf = vec![0.5_f32; BLOCK];
    buf[100] = 1.0;
    run(&mut m, &mut buf);
    assert!((f(m.peak_linear()) - 1.0).abs() < 1e-6);
}

#[test]
fn peak_meter_resets() {
    let mut m = PeakMeter::new();
    let mut buf = vec![1.0_f32; BLOCK];
    run(&mut m, &mut buf);
    m.reset();
    assert_eq!(f(m.peak_linear()), 0.0);
}

#[test]
fn peak_meter_tracks_negative_samples() {
    let mut m = PeakMeter::new();
    let mut buf = vec![-0.75_f32; BLOCK];
    run(&mut m, &mut buf);
    assert!((f(m.peak_linear()) - 0.75).abs() < 1e-6);
}

// --- HighPass ---

#[test]
fn high_pass_blocks_dc() {
    let mut hp = HighPass::new(s(80.0));
    hp.prepare(&Std, s(SAMPLE_RATE), BLOCK);
    // DC signal: constant value of 1.0
    let mut buf = vec![1.0f32; BLOCK * 4];
    run(&mut hp, &mut buf);
    // After the filter settles the output should be near zero
    let tail = &buf[BLOCK * 3..];
    for &s in tail {
        assert!(s.abs() < 0.01, "DC not blocked: {s}");
    }
}

#[test]
fn high_pass_passes_high_frequencies() {
    let mut hp = HighPass::new(s(80.0));
    hp.prepare(&Std, s(SAMPLE_RATE), BLOCK);
    // 1 kHz is well above the 80 Hz cutoff — should pass with ~0 dB loss
    let mut buf = sine_block(1000.0, 1.0, SAMPLE_RATE, BLOCK * 4);
    let rms_before = rms(&buf);
    run(&mut hp, &mut buf);
    let rms_after = rms(&buf[BLOCK * 2..]);
    let loss_db = linear_to_db(rms_after / rms_before);
    assert!(loss_db > -1.0, "1 kHz attenuated by {loss_db:.1} dB — too much");
}

#[test]
fn high_pass_attenuates_below_cutoff() {
    let mut hp = HighPass::new(s(80.0));
    hp.prepare(&Std, s(SAMPLE_RATE), BLOCK);
    // 20 Hz is well below the 80 Hz cutoff — should be significantly attenuated
    let mut buf = sine_block(20.0, 1.0, SAMPLE_RATE, BLOCK * 8);
    let rms_before = rms(&buf);
    run(&mut hp, &mut buf);
    let rms_after = rms(&buf[BLOCK * 4..]);
    let loss_db = linear_to_db(rms_after / rms_before);
    assert!(loss_db < -10.0, "20 Hz only attenuated by {loss_db:.1} dB — not enough");
}

// --- Gate ---

#[test]
fn gate_passes_loud_signal() {
    let mut gate = Gate::new();
    gate.threshold_db = s(-40.0);
    gate.prepare(&Std, s(SAMPLE_RATE), BLOCK);
    // Signal at -6 dB: well above the -40 dB threshold
    let mut buf = sine_block(440.0, 0.5, SAMPLE_RATE, BLOCK * 10);
    run(&mut gate, &mut buf);
    // Tail of the buffer should have significant energy
    let tail_rms = rms(&buf[BLOCK * 8..]);
    assert!(tail_rms > 0.1, "gate closed on loud signal: rms = {tail_rms}");
}

#[test]
fn gate_attenuates_silence() {
    let mut gate = Gate::new();
    gate.threshold_db = s(-20.0);
    gate.hold_ms = s(0.0);
    gate.release_ms = s(1.0); // very fast release so we don't need a huge buffer
    gate.prepare(&Std, s(SAMPLE_RATE), BLOCK);
    // Silence: should fall below the -20 dB threshold
    let mut buf = vec![0.0f32; BLOCK * 20];
    run(&mut gate, &mut buf);
    let tail_rms = rms(&buf[BLOCK * 15..]);
    assert!(tail_rms < 0.01, "gate did not close on silence: rms = {tail_rms}");
}

// --- Compressor ---

#[test]
fn compressor_reduces_loud_signal() {
    let mut comp = Compressor::new();
    comp.threshold_db = s(-20.0);
    comp.ratio = s(4.0);
    comp.attack_ms = s(1.0);
    comp.prepare(&Std, s(SAMPLE_RATE), BLOCK);
    // Signal at 0 dB: 20 dB above threshold — compressor should reduce it
    let input = sine_block(440.0, 1.0, SAMPLE_RATE, BLOCK * 10);
    let input_rms = rms(&input[BLOCK * 5..]);
    let mut buf = input;
    run(&mut comp, &mut buf);
    let output_rms = rms(&buf[BLOCK * 5..]);
    assert!(
        output_rms < input_rms * 0.9,
        "compressor did not reduce level: in={input_rms:.3} out={output_rms:.3}"
    );
}

#[test]
fn compressor_leaves_quiet_signal_unchanged() {
    let mut comp = Compressor::new();
    comp.threshold_db = s(-20.0);
    comp.ratio = s(4.0);
    comp.prepare(&Std, s(SAMPLE_RATE), BLOCK);
    // Signal at -40 dB: well below threshold — should pass unchanged
    let amplitude = db_to_linear(-40.0);
    let input = sine_block(440.0, amplitude, SAMPLE_RATE, BLOCK);
    let mut buf = input.clone();
    run(&mut comp, &mut buf);
    for (a, b) in input.iter().zip(buf.iter()) {
        assert!((a - b).abs() < 1e-4, "quiet signal modified: {a} -> {b}");
    }
}

// --- Limiter ---

#[test]
fn limiter_clips_at_ceiling() {
    let mut lim = Limiter::new(&Std);
    lim.ceiling_db = s(-1.0);
    lim.prepare(&Std, s(SAMPLE_RATE), BLOCK);
    let ceiling = db_to_linear(-1.0);
    // Over-threshold signal
    let mut buf = vec![2.0f32; BLOCK];
    run(&mut lim, &mut buf);
    for &s in &buf {
        assert!(
            s <= ceiling + 1e-5,
            "limiter exceeded ceiling: {s} > {ceiling}"
        );
    }
}

#[test]
fn limiter_passes_quiet_signal() {
    let mut lim = Limiter::new(&Std);
    lim.ceiling_db = s(-1.0);
    lim.prepare(&Std, s(SAMPLE_RATE), BLOCK);
    // Signal well below ceiling
    let amplitude = db_to_linear(-12.0);
    let input = sine_block(440.0, amplitude, SAMPLE_RATE, BLOCK);
    let mut buf = input.clone();
    run(&mut lim, &mut buf);
    for (a, b) in input.iter().zip(buf.iter()) {
        assert!((a - b).abs() < 1e-4, "quiet signal modified by limiter");
    }
}

// --- Eq ---

#[test]
fn eq_all_bands_zero_db_is_transparent() {
    let mut eq = micapp::dsp::eq::Eq::new(); // all bands default to 0 dB
    eq.prepare(&Std, s(SAMPLE_RATE), BLOCK);
    let input = sine_block(1000.0, 0.5, SAMPLE_RATE, BLOCK);
    let mut buf = input.clone();
    run(&mut eq, &mut buf);
    for (a, b) in input.iter().zip(buf.iter()) {
        assert!((a - b).abs() < 1e-4, "0 dB EQ modified signal: {a} -> {b}");
    }
}

#[test]
fn eq_peak_boost_raises_level_at_target_frequency() {
    let mut eq = micapp::dsp::eq::Eq::new();
    eq.bands[2].freq_hz = s(1000.0); // peak band at 1 kHz
    eq.bands[2].gain_db = s(12.0);
    eq.bands[2].q = s(2.0);   // fairly narrow so other bands are unaffected
    eq.prepare(&Std, s(SAMPLE_RATE), BLOCK);
    // 1 kHz tone: should be boosted
    let input = sine_block(1000.0, 0.2, SAMPLE_RATE, BLOCK * 4);
    let rms_before = rms(&input[BLOCK..]);
    let mut buf = input;
    run(&mut eq, &mut buf);
    let rms_after = rms(&buf[BLOCK..]);
    assert!(
        rms_after > rms_before * 1.5,
        "+12 dB boost at 1 kHz had no effect: before={rms_before:.4} after={rms_after:.4}"
    );
}

#[test]
fn eq_peak_cut_reduces_level_at_target_frequency() {
    let mut eq = micapp::dsp::eq::Eq::new();
    eq.bands[2].freq_hz = s(1000.0);
    eq.bands[2].gain_db = s(-12.0);
    eq.bands[2].q = s(2.0);
    eq.prepare(&Std, s(SAMPLE_RATE), BLOCK);
    let input = sine_block(1000.0, 0.5, SAMPLE_RATE, BLOCK * 4);
    let rms_before = rms(&input[BLOCK..]);
    let mut buf = input;
    run(&mut eq, &mut buf);
    let rms_after = rms(&buf[BLOCK..]);
    assert!(
        rms_after < rms_before * 0.6,
        "-12 dB cut at 1 kHz had no effect: before={rms_before:.4} after={rms_after:.4}"
    );
}

#[test]
fn eq_low_shelf_boost_does_not_affect_high_frequency() {
    let mut eq = micapp::dsp::eq::Eq::new();
    eq.bands[0].freq_hz = s(120.0);
    eq.bands[0].gain_db = s(12.0);
    eq.prepare(&Std, s(SAMPLE_RATE), BLOCK);
    // 8 kHz is far above the shelf — should be essentially unchanged
    let input = sine_block(8000.0, 0.5, SAMPLE_RATE, BLOCK * 4);
    let rms_before = rms(&input[BLOCK..]);
    let mut buf = input;
    run(&mut eq, &mut buf);
    let rms_after = rms(&buf[BLOCK..]);
    let change_db = linear_to_db(rms_after / rms_before);
    assert!(
        change_db.abs() < 1.5,
        "low shelf leaked into 8 kHz: {change_db:.1} dB change"
    );
}

// --- VoiceChain ---

#[test]
fn voice_chain_applies_gain_and_meters() {
    let mut chain = VoiceChain::new(&Std);
    chain.gain.set_db(&Std, s(-6.0206));
    // Push compressor threshold above the signal so it does not compress.
    chain.compressor.threshold_db = s(0.0);
    chain.prepare(&Std, s(SAMPLE_RATE), BLOCK);

    // Process enough samples for the noise gate to fully open.
    let mut buf = sine_block(440.0, 1.0, SAMPLE_RATE, BLOCK * 10);
    run_chain(&mut chain, &mut buf);

    // After the noise gate is open and no compression is applied, the peak
    // should be close to 0.5 (unity sine reduced by -6 dB).
    assert!(
        f(chain.peak_meter.peak_linear()) > 0.45 && f(chain.peak_meter.peak_linear()) < 0.55,
        "peak was {}",
        f(chain.peak_meter.peak_linear())
    );
}

#[test]
fn voice_chain_limiter_prevents_clipping() {
    let mut chain = VoiceChain::new(&Std);
    chain.gain.set_db(&Std, s(20.0)); // boost hard to force clipping
    chain.prepare(&Std, s(SAMPLE_RATE), BLOCK);
    let ceiling = db_to_linear(f(chain.limiter.ceiling_db));
    let mut buf = sine_block(440.0, 1.0, SAMPLE_RATE, BLOCK);
    run_chain(&mut chain, &mut buf);
    for &s in &buf {
        assert!(s.abs() <= ceiling + 1e-5, "chain exceeded limiter ceiling: {s}");
    }
}
