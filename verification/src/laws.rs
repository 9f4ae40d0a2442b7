//! What holds from the window to the sound: a slider that is moved, a device that is picked.
use vstd::prelude::*;

use crate::accuracy::{
    exact, lemma_eps, lemma_factor_grows, lemma_limits, lemma_minus_error, lemma_negated_exact,
    lemma_norm_product, lemma_plus_error, lemma_quotient, lemma_share, lemma_spread, norm,
};
use crate::app::{fill_fraction, holds, restored, shown_peak, GuiAction, GuiEvent, MicApp};
use crate::audio::engine::{AudioCmd, Engine, EngineAction, EngineEvent, EngineStep, Waited};
use crate::audio::session::set_up;
use crate::controls::{Control, Switch};
use crate::dsp::biquad::is_high_pass;
use crate::dsp::chain::VoiceChain;
use crate::dsp::eq::is_band;
use crate::dsp::laws_eq::lemma_wide;
use crate::dsp::laws_levels::{
    lemma_constant, lemma_exact_at_most, lemma_exact_zero, lemma_rounded_product,
    lemma_rounded_quotient,
};
use crate::dsp::level::{is_linear, Elementary};
use crate::numbers::{HUNDRED_TWENTY, MINUS_INF_DB, MINUS_SIXTY, TWENTIETH};
use crate::single::Single;
use crate::state::Settings;

verus! {

/// The chain goes by the settings, each of its stages by the controls that bear its name.
pub open spec fn goes_by<M: Elementary>(m: &M, c: VoiceChain, s: Settings) -> bool {
    &&& c.gain_enabled == s.flag(Switch::Gain)
    &&& c.high_pass_enabled == s.flag(Switch::HighPass)
    &&& c.eq_enabled == s.flag(Switch::Eq)
    &&& c.gate_enabled == s.flag(Switch::Gate)
    &&& c.compressor_enabled == s.flag(Switch::Compressor)
    &&& c.limiter_enabled == s.flag(Switch::Limiter)
    &&& is_linear(m, s.number(Control::GainDb), c.gain.gain_linear)
    &&& is_high_pass(m, s.number(Control::HighPassCutoffHz), c.sample_rate, c.high_pass.taps)
    &&& c.gate.threshold_db == s.number(Control::GateThresholdDb)
    &&& c.gate.attack_ms == s.number(Control::GateAttackMs)
    &&& c.gate.hold_ms == s.number(Control::GateHoldMs)
    &&& c.gate.release_ms == s.number(Control::GateReleaseMs)
    &&& c.gate.tuned(m, c.sample_rate)
    &&& c.compressor.threshold_db == s.number(Control::CompressorThresholdDb)
    &&& c.compressor.ratio == s.number(Control::CompressorRatio)
    &&& c.compressor.attack_ms == s.number(Control::CompressorAttackMs)
    &&& c.compressor.release_ms == s.number(Control::CompressorReleaseMs)
    &&& c.compressor.makeup_db == s.number(Control::CompressorMakeupDb)
    &&& c.compressor.tuned(m, c.sample_rate)
    &&& c.limiter.ceiling_db == s.number(Control::LimiterCeilingDb)
    &&& c.limiter.release_ms == s.number(Control::LimiterReleaseMs)
    &&& c.limiter.tuned(m, c.sample_rate)
    &&& forall|i: usize|
        0 <= i < 4 ==> is_band(
            m,
            (#[trigger] c.eq.bands@[i as int]).kind,
            s.number(Control::EqFreqHz(i)),
            s.number(Control::EqGainDb(i)),
            s.number(Control::EqQ(i)),
            c.sample_rate,
            c.eq.bands@[i as int].taps,
        )
}

/// A chain that has taken on settings goes by them.
pub proof fn law_controls_reach_their_stages<M: Elementary>(
    m: &M,
    c: VoiceChain,
    s: Settings,
    later: VoiceChain,
)
    requires
        c.takes_on(m, s, later),
    ensures
        goes_by(m, later, s),
        later.sample_rate == c.sample_rate,
{
    assert forall|i: usize| 0 <= i < 4 implies is_band(
        m,
        (#[trigger] later.eq.bands@[i as int]).kind,
        s.number(Control::EqFreqHz(i)),
        s.number(Control::EqGainDb(i)),
        s.number(Control::EqQ(i)),
        later.sample_rate,
        later.eq.bands@[i as int].taps,
    ) by {
        assert(later.eq.bands@[i as int].tuned(m, later.sample_rate));
    }
}

/// The chain of a session goes by the settings of the session, at the rate of the output.
pub proof fn law_session_chain_goes_by_its_settings<M: Elementary>(
    m: &M,
    out_rate: u32,
    block: usize,
    settings: Settings,
    chain: VoiceChain,
)
    requires
        set_up(m, out_rate, block, settings, chain),
    ensures
        goes_by(m, chain, settings),
        chain.sample_rate == Single::from_u32(out_rate),
{
    let (fresh, ready) = choose|fresh: VoiceChain, ready: VoiceChain|
        {
            &&& #[trigger] fresh.is_new(m)
            &&& fresh.prepares(m, Single::from_u32(out_rate), block, ready)
            &&& #[trigger] ready.takes_on(m, settings, chain)
        };
    law_controls_reach_their_stages(m, ready, settings, chain);
}

/// A slider that is moved is heard: the frame tells the engine settings with the new value, the
/// running engine posts just these, and the chain that takes them on goes by the new value, and by
/// the old one of every other control and switch.
pub proof fn law_moved_slider_is_heard<M: Elementary>(
    m: &M,
    before: MicApp,
    c: Control,
    value: Single,
    moved: MicApp,
    none: Seq<GuiAction>,
    after: MicApp,
    actions: Seq<GuiAction>,
    engine: Engine,
    engine_after: Engine,
    step: EngineStep,
    chain: VoiceChain,
    later: VoiceChain,
)
    requires
        c.is_there(),
        before.answers(GuiEvent::Move(c, value), moved, none),
        moved.closes(MicApp::is_edit(&GuiEvent::Move(c, value)), after, actions),
        actions[0] matches GuiAction::Command(cmd) ==> {
            &&& engine.awaits(&EngineEvent::Command(Some(cmd)))
            &&& engine.phase is Serving
            &&& engine.answers(EngineEvent::Command(Some(cmd)), engine_after, step)
        },
        step.post matches Some(s) ==> chain.takes_on(m, s, later),
    ensures
        step.post is Some,
        step.post->0.number(c) == value,
        forall|o: Control|
            o.is_there() && o != c ==> #[trigger] step.post->0.number(o)
                == before.settings.number(o),
        forall|w: Switch| #[trigger] step.post->0.flag(w) == before.settings.flag(w),
        goes_by(m, later, step.post->0),
        engine_after.settings == step.post->0,
{
    law_controls_reach_their_stages(m, chain, step.post->0, later);
}

/// A switch that is turned is heard in the same way.
pub proof fn law_turned_switch_is_heard<M: Elementary>(
    m: &M,
    before: MicApp,
    w: Switch,
    on: bool,
    moved: MicApp,
    none: Seq<GuiAction>,
    after: MicApp,
    actions: Seq<GuiAction>,
    engine: Engine,
    engine_after: Engine,
    step: EngineStep,
    chain: VoiceChain,
    later: VoiceChain,
)
    requires
        before.answers(GuiEvent::Turn(w, on), moved, none),
        moved.closes(MicApp::is_edit(&GuiEvent::Turn(w, on)), after, actions),
        actions[0] matches GuiAction::Command(cmd) ==> {
            &&& engine.awaits(&EngineEvent::Command(Some(cmd)))
            &&& engine.phase is Serving
            &&& engine.answers(EngineEvent::Command(Some(cmd)), engine_after, step)
        },
        step.post matches Some(s) ==> chain.takes_on(m, s, later),
    ensures
        step.post is Some,
        step.post->0.flag(w) == on,
        forall|v: Switch|
            v != w ==> #[trigger] step.post->0.flag(v) == before.settings.flag(v),
        goes_by(m, later, step.post->0),
{
    law_controls_reach_their_stages(m, chain, step.post->0, later);
}

/// The first band of an equalizer is a low shelf, the last a high shelf, and those between have a
/// Q, which only they let be moved.
pub proof fn law_shelves_have_no_q<M: Elementary>(m: &M, c: VoiceChain, band: usize)
    requires
        c.is_new(m),
        band < 4,
    ensures
        Control::EqQ(band).is_active() <==> c.eq.bands@[band as int].kind is Peak,
        band == 0 <==> c.eq.bands@[band as int].kind is LowShelf,
        band == 3 <==> c.eq.bands@[band as int].kind is HighShelf,
{
}

/// A running engine posts new settings to its output without closing a stream, and starts later
/// sessions with them.
pub proof fn law_engine_takes_on_settings(
    e: Engine,
    s: Box<Settings>,
    after: Engine,
    step: EngineStep,
)
    requires
        e.awaits(&EngineEvent::Command(Some(AudioCmd::UpdateSettings(s)))),
        e.answers(EngineEvent::Command(Some(AudioCmd::UpdateSettings(s))), after, step),
    ensures
        after.settings == *s,
        after.input_name == e.input_name,
        after.output_name == e.output_name,
        after.monitor_name == e.monitor_name,
        e.phase is Serving ==> step.post == Some(*s),
        !step.release,
        step.next is PollCommand,
{
}

/// An engine that is told of other devices closes the streams that are open, and opens those
/// devices once no command is left.
pub proof fn law_engine_changes_devices(
    e: Engine,
    cmd: AudioCmd,
    after: Engine,
    step: EngineStep,
)
    requires
        cmd is ChangeDevices,
        e.awaits(&EngineEvent::Command(Some(cmd))),
        e.answers(EngineEvent::Command(Some(cmd)), after, step),
    ensures
        cmd == (AudioCmd::ChangeDevices {
            input_name: after.input_name,
            output_name: after.output_name,
            monitor_name: after.monitor_name,
            monitor_enabled: after.monitor_enabled,
        }),
        after.settings == e.settings,
        step.release == e.holding(),
        !after.holding(),
{
}

/// When a stream fails, the engine closes its streams, pauses, and opens the same devices again.
pub proof fn law_engine_reconnects(
    e: Engine,
    w: Waited,
    failed: Engine,
    first: EngineStep,
    rested: Engine,
    second: EngineStep,
    ready: Engine,
    third: EngineStep,
)
    requires
        !(w is Timeout),
        e.awaits(&EngineEvent::Waited(w)),
        e.answers(EngineEvent::Waited(w), failed, first),
        failed.answers(EngineEvent::Rested, rested, second),
        rested.answers(EngineEvent::Command(None), ready, third),
    ensures
        first.release,
        first.next == EngineAction::Rest(2000),
        second.next is PollCommand,
        third.next is Start,
        ready.input_name == e.input_name,
        ready.output_name == e.output_name,
        ready.monitor_name == e.monitor_name,
        ready.settings == e.settings,
{
}

/// A device that is picked is opened, and remembered for the next start; the other selections stay.
pub proof fn law_picked_device_is_opened(
    before: MicApp,
    name: String,
    after: MicApp,
    actions: Seq<GuiAction>,
)
    requires
        before.answers(GuiEvent::PickInput(name), after, actions),
        name@ != before.selected_input@,
        name@.len() > 0,
    ensures
        actions.len() == 2,
        actions[0] == GuiAction::Command(
            AudioCmd::ChangeDevices {
                input_name: Some(name),
                output_name: Some(before.selected_output),
                monitor_name: Some(before.selected_monitor),
                monitor_enabled: before.settings.monitor_enabled,
            },
        ),
        actions[1] matches GuiAction::Store(s) && s.input_device == Some(name),
        after.selected_input == name,
        after.selected_output == before.selected_output,
        after.selected_monitor == before.selected_monitor,
{
}

/// An output device that is picked is opened, and remembered for the next start.
pub proof fn law_picked_output_is_opened(
    before: MicApp,
    name: String,
    after: MicApp,
    actions: Seq<GuiAction>,
)
    requires
        before.answers(GuiEvent::PickOutput(name), after, actions),
        name@ != before.selected_output@,
        name@.len() > 0,
    ensures
        actions.len() == 2,
        actions[0] == GuiAction::Command(
            AudioCmd::ChangeDevices {
                input_name: Some(before.selected_input),
                output_name: Some(name),
                monitor_name: Some(before.selected_monitor),
                monitor_enabled: before.settings.monitor_enabled,
            },
        ),
        actions[1] matches GuiAction::Store(s) && s.output_device == Some(name),
        after.selected_output == name,
        after.selected_input == before.selected_input,
        after.selected_monitor == before.selected_monitor,
{
}

/// A monitor that is picked is opened, and remembered for the next start.
pub proof fn law_picked_monitor_is_opened(
    before: MicApp,
    name: String,
    after: MicApp,
    actions: Seq<GuiAction>,
)
    requires
        before.answers(GuiEvent::PickMonitor(name), after, actions),
        name@ != before.selected_monitor@,
        name@.len() > 0,
    ensures
        actions.len() == 2,
        actions[0] == GuiAction::Command(
            AudioCmd::ChangeDevices {
                input_name: Some(before.selected_input),
                output_name: Some(before.selected_output),
                monitor_name: Some(name),
                monitor_enabled: before.settings.monitor_enabled,
            },
        ),
        actions[1] matches GuiAction::Store(s) && s.monitor_device == Some(name),
        after.selected_monitor == name,
        after.selected_input == before.selected_input,
        after.selected_output == before.selected_output,
{
}

/// A preset that was loaded replaces the settings, and the engine is told; one that could not be
/// loaded changes no setting.
pub proof fn law_loaded_preset_is_heard(
    before: MicApp,
    path: String,
    preset: Result<Settings, String>,
    loaded: MicApp,
    none: Seq<GuiAction>,
    after: MicApp,
    actions: Seq<GuiAction>,
)
    requires
        before.answers(GuiEvent::Loaded { path, preset }, loaded, none),
        loaded.closes(MicApp::is_edit(&GuiEvent::Loaded { path, preset }), after, actions),
    ensures
        preset matches Ok(s) ==> actions.len() == 2 && (actions[0] matches GuiAction::Command(
            AudioCmd::UpdateSettings(t),
        ) && *t == s),
        preset is Err ==> actions.len() == 0 && after.settings == before.settings,
{
}

/// At the start the device that was last used is selected if it is still there, and otherwise the
/// first one; a device that is not there is never selected.
pub proof fn law_selection_falls_back_to_the_first(saved: Option<String>, devices: Seq<String>)
    ensures
        saved is None && devices.len() > 0 ==> restored(saved, devices) == devices[0]@,
        saved matches Some(n) ==> (!holds(devices, n@) && devices.len() > 0 ==> restored(
            saved,
            devices,
        ) == devices[0]@),
        saved matches Some(n) ==> (holds(devices, n@) ==> restored(saved, devices) == n@),
        devices.len() > 0 ==> holds(devices, restored(saved, devices)),
        devices.len() == 0 ==> restored(saved, devices).len() == 0,
{
    if devices.len() > 0 {
        assert(holds(devices, devices[0]@));
    }
}

/// Sixty, and a hundred and twenty.
proof fn lemma_sixty()
    ensures
        Single::from_bits(MINUS_SIXTY).finite(),
        exact(Single::from_bits(MINUS_SIXTY)) == -(60 as real),
        Single::from_bits(MINUS_INF_DB).finite(),
        exact(Single::from_bits(MINUS_INF_DB)) == -(120 as real),
        Single::from_bits(TWENTIETH).finite(),
        0x100_0000 as real * norm(20 as real * exact(Single::from_bits(TWENTIETH)) - 1 as real)
            <= 1 as real,
{
    vstd::arithmetic::power2::lemma2_to64();
    let sixty = Single { bits: 0x4270_0000 };
    lemma_constant(0x4270_0000, 131, 0xf0_0000, 18);
    assert(vstd::arithmetic::power2::pow2(18) == 0x4_0000);
    assert(exact(Single::from_bits(0x4270_0000)) * 0x4_0000 as real == 0xf0_0000 as real);
    lemma_negated_exact(sixty);
    assert(Single::from_bits(MINUS_SIXTY) == sixty.negated());
    let top = Single::from_bits(HUNDRED_TWENTY);
    lemma_constant(HUNDRED_TWENTY, 132, 0xf0_0000, 17);
    assert(vstd::arithmetic::power2::pow2(17) == 0x2_0000);
    assert(exact(top) * 0x2_0000 as real == 0xf0_0000 as real);
    lemma_negated_exact(top);
    assert(Single::from_bits(MINUS_INF_DB) == top.negated());
    lemma_constant(TWENTIETH, 121, 0xcc_cccd, 28);
    assert(vstd::arithmetic::power2::pow2(28) == 0x1000_0000);
    assert(exact(Single::from_bits(TWENTIETH)) * 0x1000_0000 as real == 0xcc_cccd as real);
}

/// The meter is filled in proportion to the level: not at all at -60 dB and below, to the full at
/// 0 dB and above.
pub proof fn law_meter_is_filled_in_proportion(db: Single)
    requires
        db.finite(),
        norm(exact(db)) <= 0x1_0000 as real,
    ensures
        ({
            let x = exact(fill_fraction(db));
            let d = exact(db);
            &&& fill_fraction(db).finite()
            &&& d <= -(61 as real) ==> x == 0 as real
            &&& d >= 1 as real ==> x == 1 as real
            &&& -(60 as real) <= d <= 0 as real ==> 0x100_0000 as real * norm(
                60 as real * x - (d + 60 as real),
            ) <= 300 as real
        }),
{
    let low = Single::from_bits(MINUS_SIXTY);
    let zero = Single::zero();
    let one = Single::one();
    let k: real = 0x100_0000 as real;
    lemma_wide();
    lemma_limits();
    lemma_sixty();
    lemma_exact_zero();
    lemma_share(one);
    let up = db.minus(low);
    let all = zero.minus(low);
    let d: real = exact(db);
    lemma_minus_error(db, low);
    lemma_eps(norm(d + 60 as real));
    lemma_minus_error(zero, low);
    lemma_eps(60 as real);
    let b: real = exact(all);
    let u: real = exact(up);
    let q: real = u / b;
    lemma_quotient(u, b);
    lemma_norm_product(q, b);
    lemma_factor_grows(50 as real, b, norm(q));
    assert(norm(q) * 50 as real == 50 as real * norm(q)) by (nonlinear_arith);
    lemma_rounded_quotient(up, all);
    let x = up.over(all);
    let ex: real = exact(x);
    lemma_exact_at_most(x, zero);
    lemma_exact_at_most(x, one);
    // times sixty
    let y: real = b - 60 as real;
    assert(norm(y) <= 60 as real / k);
    lemma_spread(b, 60 as real, q);
    lemma_norm_product(q, y);
    lemma_factor_grows(norm(y), 60 as real / k, norm(q));
    assert(norm(q) * (60 as real / k) == 60 as real * norm(q) / k) by (nonlinear_arith)
        requires
            k == 0x100_0000 as real,
    ;
    assert(q * 60 as real == 60 as real * q && q * b == u) by (nonlinear_arith)
        requires
            q * b == u,
    ;
    assert(k * norm(60 as real * q - u) <= 60 as real * norm(q));
}

/// The level that is shown goes up at once, and down by a twentieth of the way to -120 dB.
pub proof fn law_shown_peak_falls_gradually(shown: Single, raw: Single)
    requires
        shown.finite(),
        raw.finite(),
        norm(exact(shown)) <= 0x1_0000 as real,
    ensures
        exact(raw) > exact(shown) ==> shown_peak(shown, raw) == raw,
        exact(raw) <= exact(shown) ==> shown_peak(shown, raw).finite() && 0x100_0000 as real * norm(
            20 as real * exact(shown_peak(shown, raw)) - (19 as real * exact(shown) - 120 as real),
        ) <= 40 as real * (norm(exact(shown)) + 120 as real),
{
    let low = Single::from_bits(MINUS_INF_DB);
    let c = Single::from_bits(TWENTIETH);
    let k: real = 0x100_0000 as real;
    lemma_wide();
    lemma_limits();
    lemma_sixty();
    lemma_exact_at_most(raw, shown);
    let s: real = exact(shown);
    let way = low.minus(shown);
    lemma_minus_error(low, shown);
    lemma_eps(norm(-(120 as real) - s));
    let w: real = exact(way);
    let e: real = exact(c);
    let part = way.times(c);
    lemma_norm_product(w, e);
    lemma_factor_grows(e, 1 as real, norm(w));
    assert(norm(w) * 1 as real == norm(w)) by (nonlinear_arith);
    lemma_rounded_product(way, c);
    let y: real = 20 as real * e - 1 as real;
    assert(w * y == 20 as real * (w * e) - w) by (nonlinear_arith)
        requires
            y == 20 as real * e - 1 as real,
    ;
    lemma_norm_product(w, y);
    lemma_factor_grows(k * norm(y), 1 as real, norm(w));
    assert(norm(w) * (k * norm(y)) == k * (norm(w) * norm(y))) by (nonlinear_arith);
    lemma_plus_error(shown, part);
    lemma_eps(norm(s + exact(part)));
}

} // verus!
