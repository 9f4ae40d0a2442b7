//! What becomes of samples on their way from the microphone to the devices.
use vstd::arithmetic::div_mod::lemma_fundamental_div_mod_converse;
use vstd::arithmetic::power2::{lemma2_to64, pow2};
use vstd::prelude::*;

use super::callbacks::{
    adapts, answers, faded, fanned, filled, filled_fading, first_channel, frames, offers, plays,
    EngineOutput,
};
use super::monitor::held;
use super::ring::{room, sent, SampleSender};
use crate::accuracy::{exact, large, lemma_factor_grows, lemma_norm_product, norm, tiny};
use crate::dsp::chain::VoiceChain;
use crate::dsp::laws_eq::lemma_wide;
use crate::dsp::laws_levels::{lemma_constant, lemma_rounded_product};
use crate::dsp::laws_runs::{law_processing_keeps_parameters, same_parameters};
use crate::dsp::laws_stages::{law_bypass_changes_nothing, law_peak_is_the_largest};
use crate::dsp::level::Elementary;
use crate::dsp::meter::PeakMeter;
use crate::numbers::FADE;
use crate::single::Single;
use crate::state::Settings;

verus! {

/// A block of `n` frames in which every channel has its own samples: all channels of the first
/// frame, then all of the second, and so on.
pub open spec fn interleaved(channels: Seq<Seq<Single>>, n: nat) -> Seq<Single> {
    Seq::new(
        n * channels.len(),
        |i: int| channels[i % (channels.len() as int)][i / (channels.len() as int)],
    )
}

/// What is taken from a microphone's block is its first channel, whatever the others hold.
pub proof fn law_first_channel_is_taken(channels: Seq<Seq<Single>>, n: usize)
    requires
        channels.len() > 0,
        channels.len() <= usize::MAX,
        n * channels.len() <= usize::MAX,
        channels[0].len() == n,
    ensures
        frames((n * channels.len()) as usize, channels.len() as usize) == n,
        first_channel(interleaved(channels, n as nat), channels.len(), n as nat) == channels[0],
{
    let c: int = channels.len() as int;
    let taken = first_channel(interleaved(channels, n as nat), channels.len(), n as nat);
    lemma_fundamental_div_mod_converse(n * c, c, n as int, 0);
    assert forall|f: int| 0 <= f < n implies taken[f] == channels[0][f] by {
        lemma_fundamental_div_mod_converse(f * c, c, f, 0);
        assert(0 <= f * c < n * c) by (nonlinear_arith)
            requires
                0 <= f < n,
                c > 0,
        ;
    }
    assert(taken =~= channels[0]);
}

/// Every channel of an output device plays the same signal.
pub proof fn law_every_channel_plays_the_signal(mono: Seq<Single>, channels: nat, f: int, c: int)
    requires
        0 <= f < mono.len(),
        0 <= c < channels,
    ensures
        f * channels + c < mono.len() * channels,
        fanned(mono, channels, mono.len() * channels)[f * channels + c] == mono[f],
{
    let d: int = channels as int;
    let i: int = f * d + c;
    assert(0 <= i < mono.len() * d) by (nonlinear_arith)
        requires
            i == f * d + c,
            0 <= c < d,
            0 <= f < mono.len(),
    ;
    lemma_fundamental_div_mod_converse(i, d, f, c);
}

/// Samples that are offered to a ring with room for them all follow what was sent before, in order;
/// and what was sent before stays.
pub proof fn law_offered_samples_are_sent(
    before: &SampleSender,
    after: &SampleSender,
    offered: Seq<Single>,
)
    requires
        offers(before, after, offered),
    ensures
        sent(before).len() + offered.len() <= room(before) ==> sent(after) == sent(before) + offered,
        sent(before) =~= sent(after).take(sent(before).len() as int),
        sent(after).len() <= sent(before).len() + offered.len(),
{
    let kept = choose|kept: Seq<bool>|
        kept.len() == offered.len() && sent(after) == sent(before)
            + #[trigger] super::callbacks::accepted(offered, kept);
    lemma_accepted_len(offered, kept);
}

proof fn lemma_accepted_len(offered: Seq<Single>, kept: Seq<bool>)
    ensures
        super::callbacks::accepted(offered, kept).len() <= kept.len(),
    decreases kept.len(),
{
    if kept.len() > 0 {
        lemma_accepted_len(offered, kept.drop_last());
    }
}

/// A plain session plays what has arrived, and silence where nothing has.
pub proof fn law_missing_samples_are_silent(got: Seq<Option<Single>>, k: int)
    requires
        0 <= k < got.len(),
    ensures
        filled(got).len() == got.len(),
        got[k] matches Some(x) ==> filled(got)[k] == x,
        got[k] is None ==> filled(got)[k].bits == 0,
{
}

/// An engine plays what has arrived; where nothing has, it plays nine tenths of the sample before,
/// up to rounding.
pub proof fn law_missing_samples_fade(last: Single, got: Seq<Option<Single>>, k: int)
    requires
        0 <= k < got.len(),
    ensures
        ({
            let block = filled_fading(last, got);
            let before = if k == 0 {
                last
            } else {
                block[k - 1]
            };
            &&& block.len() == got.len()
            &&& got[k] matches Some(x) ==> block[k] == x
            &&& got[k] is None && before.finite() && norm(exact(before)) <= large() ==> block[k].finite()
                && 0x100_0000 as real * norm(
                10 as real * exact(block[k]) - 9 as real * exact(before),
            ) <= 20 as real * norm(exact(before)) + 0x1000_0000 as real * tiny()
            &&& k == got.len() - 1 ==> faded(last, got) == block[k]
        }),
{
    let c = Single::from_bits(FADE);
    let now = got.take(k + 1);
    assert(now.drop_last() =~= got.take(k));
    assert(now.last() == got[k]);
    if k == 0 {
        assert(got.take(0) =~= Seq::<Option<Single>>::empty());
    }
    if k == got.len() - 1 {
        assert(now =~= got);
    }
    let before = faded(last, got.take(k));
    if got[k] is None && before.finite() && norm(exact(before)) <= large() {
        lemma_wide();
        lemma2_to64();
        lemma_constant(FADE, 125, 0xe6_6666, 24);
        assert(pow2(24) == 0x100_0000);
        let e: real = exact(c);
        assert(e * 0x100_0000 as real == 0xe6_6666 as real);
        let b: real = exact(before);
        lemma_norm_product(b, e);
        lemma_factor_grows(e, 1 as real, norm(b));
        assert(norm(b) * 1 as real == norm(b)) by (nonlinear_arith);
        lemma_rounded_product(before, c);
        let y: real = 10 as real * e - 9 as real;
        lemma_norm_product(b, y);
        assert(b * y == 10 as real * (b * e) - 9 as real * b) by (nonlinear_arith)
            requires
                y == 10 as real * e - 9 as real,
        ;
        lemma_factor_grows(0x100_0000 as real * norm(y), 4 as real, norm(b));
        assert(norm(b) * (0x100_0000 as real * norm(y)) == 0x100_0000 as real * (norm(b) * norm(y)))
            by (nonlinear_arith);
        assert(norm(b) * 4 as real == 4 as real * norm(b)) by (nonlinear_arith);
    }
}

/// A monitor plays the last sample that it took, silence if that one had not arrived, and goes on
/// with what it played while it takes none.
pub proof fn law_monitor_holds_the_last_sample(
    last: Single,
    got: Seq<Option<Single>>,
    r: Option<Single>,
)
    ensures
        held(last, Seq::empty()) == last,
        r matches Some(x) ==> held(last, got.push(r)) == x,
        r is None ==> held(last, got.push(r)).bits == 0,
{
}

/// With every stage off, a device gets what has arrived, on every channel.
pub proof fn law_bypassed_block_is_played<M: Elementary>(
    m: &M,
    chain: VoiceChain,
    block: Seq<Single>,
    squeezed: Seq<Single>,
    later: VoiceChain,
    channels: usize,
    data: Seq<Single>,
)
    requires
        !chain.gain_enabled && !chain.high_pass_enabled && !chain.eq_enabled,
        !chain.gate_enabled && !chain.compressor_enabled && !chain.limiter_enabled,
        plays(m, chain, block, squeezed, later, channels, data),
    ensures
        data == fanned(block, channels as nat, data.len()),
{
    law_bypass_changes_nothing(m, chain, block, squeezed, later);
}

/// The samples that a device plays on its first channel are those that were fanned out.
proof fn lemma_first_of_fanned(mono: Seq<Single>, channels: nat, len: nat)
    requires
        channels > 0,
        len == mono.len() * channels,
    ensures
        first_channel(fanned(mono, channels, len), channels, mono.len()) == mono,
{
    let taken = first_channel(fanned(mono, channels, len), channels, mono.len());
    assert forall|f: int| 0 <= f < mono.len() implies taken[f] == mono[f] by {
        law_every_channel_plays_the_signal(mono, channels, f, 0);
    }
    assert(taken =~= mono);
}

/// What an engine's block went through: the chain that was ready, what it made, and the chain that
/// had played.
proof fn lemma_block_parts<M: Elementary>(
    m: &M,
    side: EngineOutput,
    waiting: Option<Settings>,
    monitor_active: bool,
    later: EngineOutput,
    data: Seq<Single>,
    peak: u32,
) -> (r: (VoiceChain, Seq<Single>, Seq<Single>, VoiceChain))
    requires
        side.channels > 0,
        data.len() % (side.channels as nat) == 0,
        side.makes(m, waiting, monitor_active, later, data, peak),
    ensures
        adapts(m, side.chain, waiting, r.0),
        r.0.is_after_compressor(m, r.1, r.2),
        r.0.moves_to(r.1, r.2, r.3),
        r.0.after_limiter(r.2).len() == data.len() / (side.channels as nat),
        data.len() == r.0.after_limiter(r.2).len() * (side.channels as nat),
        data == fanned(r.0.after_limiter(r.2), side.channels as nat, data.len()),
        peak == r.3.peak_meter.peak.bits,
        later.chain == (VoiceChain { peak_meter: PeakMeter { peak: Single::zero() }, ..r.3 }),
        monitor_active ==> offers(&side.monitor, &later.monitor, r.0.after_limiter(r.2)),
        !monitor_active ==> later.monitor == side.monitor,
{
    let (ready, got, squeezed, played) = choose|
        ready: VoiceChain,
        got: Seq<Option<Single>>,
        squeezed: Seq<Single>,
        played: VoiceChain,
    |
        {
            &&& #[trigger] adapts(m, side.chain, waiting, ready)
            &&& got.len() == data.len() / (side.channels as nat)
            &&& #[trigger] answers(&side.rx, &later.rx, got)
            &&& later.last == faded(side.last, got)
            &&& #[trigger] plays(
                m,
                ready,
                filled_fading(side.last, got),
                squeezed,
                played,
                side.channels,
                data,
            )
            &&& peak == played.peak_meter.peak.bits
            &&& later.chain == (VoiceChain {
                peak_meter: PeakMeter { peak: Single::zero() },
                ..played
            })
            &&& if monitor_active {
                offers(&side.monitor, &later.monitor, ready.after_limiter(squeezed))
            } else {
                later.monitor == side.monitor
            }
        };
    let block = filled_fading(side.last, got);
    ready.lemma_output_len(m, block, squeezed);
    let c: int = side.channels as int;
    vstd::arithmetic::div_mod::lemma_fundamental_div_mod(data.len() as int, c);
    let n: int = data.len() as int / c;
    assert(c * n == n * c) by (nonlinear_arith);
    (ready, block, squeezed, played)
}

/// The monitor is offered, while it is on, exactly what the output device plays, and nothing while
/// it is off.
pub proof fn law_monitor_hears_what_is_played<M: Elementary>(
    m: &M,
    side: EngineOutput,
    waiting: Option<Settings>,
    monitor_active: bool,
    later: EngineOutput,
    data: Seq<Single>,
    peak: u32,
)
    requires
        side.channels > 0,
        data.len() % (side.channels as nat) == 0,
        side.makes(m, waiting, monitor_active, later, data, peak),
    ensures
        monitor_active ==> offers(
            &side.monitor,
            &later.monitor,
            first_channel(data, side.channels as nat, data.len() / (side.channels as nat)),
        ),
        !monitor_active ==> later.monitor == side.monitor,
{
    let r = lemma_block_parts(m, side, waiting, monitor_active, later, data, peak);
    lemma_first_of_fanned(r.0.after_limiter(r.2), side.channels as nat, data.len());
}

/// The peak that an engine reports for a block is that of what the device plays: no sample is
/// larger, and one is as large, if any is louder than silence. The next block starts from silence.
pub proof fn law_peak_is_that_of_the_block<M: Elementary>(
    m: &M,
    side: EngineOutput,
    waiting: Option<Settings>,
    monitor_active: bool,
    later: EngineOutput,
    data: Seq<Single>,
    peak: u32,
)
    requires
        side.channels > 0,
        data.len() % (side.channels as nat) == 0,
        side.chain.peak_meter.peak == Single::zero(),
        side.makes(m, waiting, monitor_active, later, data, peak),
    ensures
        forall|i: int|
            0 <= i < data.len() && !data[i].nan() ==> (#[trigger] data[i]).abs().le(
                Single::from_bits(peak),
            ),
        peak == 0 || exists|i: int| 0 <= i < data.len() && (#[trigger] data[i]).abs().bits == peak,
        later.chain.peak_meter.peak == Single::zero(),
{
    let r = lemma_block_parts(m, side, waiting, monitor_active, later, data, peak);
    let out = r.0.after_limiter(r.2);
    let c: nat = side.channels as nat;
    law_peak_is_the_largest(Single::zero(), out);
    let p = Single::from_bits(peak);
    assert(p == crate::dsp::meter::peak_after(Single::zero(), out));
    assert forall|i: int| 0 <= i < data.len() && !data[i].nan() implies (
    #[trigger] data[i]).abs().le(p) by {
        let f: int = i / (c as int);
        let d: int = c as int;
        vstd::arithmetic::div_mod::lemma_fundamental_div_mod(i, d);
        assert(0 <= f < out.len()) by (nonlinear_arith)
            requires
                d > 0,
                f == i / d,
                0 <= i < out.len() * d,
        ;
        assert(data[i] == out[f]);
    }
    if p != Single::zero() {
        let f = choose|f: int| 0 <= f < out.len() && p == (#[trigger] out[f]).abs();
        law_every_channel_plays_the_signal(out, c, f, 0);
        let i: int = f * (c as int) + 0;
        assert(data[i].abs().bits == peak);
    }
}

/// Settings that wait for an engine take effect with the next block: the chain that makes it, and
/// all later ones until there are others, goes by them.
pub proof fn law_waiting_settings_take_effect<M: Elementary>(
    m: &M,
    side: EngineOutput,
    s: Settings,
    monitor_active: bool,
    later: EngineOutput,
    data: Seq<Single>,
    peak: u32,
)
    requires
        side.channels > 0,
        data.len() % (side.channels as nat) == 0,
        side.makes(m, Some(s), monitor_active, later, data, peak),
    ensures
        later.chain.gain_enabled == s.gain_enabled,
        later.chain.high_pass_enabled == s.high_pass_enabled,
        later.chain.eq_enabled == s.eq_enabled,
        later.chain.gate_enabled == s.gate_enabled,
        later.chain.compressor_enabled == s.compressor_enabled,
        later.chain.limiter_enabled == s.limiter_enabled,
        later.chain.high_pass.cutoff_hz == s.high_pass_cutoff_hz,
        later.chain.gate.threshold_db == s.gate_threshold_db,
        later.chain.gate.hold_ms == s.gate_hold_ms,
        later.chain.compressor.threshold_db == s.compressor_threshold_db,
        later.chain.compressor.ratio == s.compressor_ratio,
        later.chain.compressor.makeup_db == s.compressor_makeup_db,
        later.chain.limiter.ceiling_db == s.limiter_ceiling_db,
        forall|i: int|
            0 <= i < 4 ==> (#[trigger] later.chain.eq.bands@[i]).gain_db == s.eq_band_gain_db@[i],
{
    let r = lemma_block_parts(m, side, Some(s), monitor_active, later, data, peak);
    law_processing_keeps_parameters(m, r.0, r.1, r.2, r.3);
    assert forall|i: int| 0 <= i < 4 implies (#[trigger] later.chain.eq.bands@[i]).gain_db
        == s.eq_band_gain_db@[i] by {
        assert(r.3.eq.bands@[i] == later.chain.eq.bands@[i]);
        assert(r.0.eq.bands@[i].gain_db == s.eq_band_gain_db@[i]);
    }
}

/// Without settings waiting, a block leaves everything that is set as it was.
pub proof fn law_settings_stay_between_changes<M: Elementary>(
    m: &M,
    side: EngineOutput,
    monitor_active: bool,
    later: EngineOutput,
    data: Seq<Single>,
    peak: u32,
)
    requires
        side.channels > 0,
        data.len() % (side.channels as nat) == 0,
        side.makes(m, None, monitor_active, later, data, peak),
    ensures
        same_parameters(later.chain, side.chain),
{
    let r = lemma_block_parts(m, side, None, monitor_active, later, data, peak);
    law_processing_keeps_parameters(m, r.0, r.1, r.2, r.3);
}

} // verus!
