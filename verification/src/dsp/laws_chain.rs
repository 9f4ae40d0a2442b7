//! What the voice chain does with its stages and its settings.
use vstd::prelude::*;

use super::biquad::{is_high_pass, History, Taps};
use super::chain::VoiceChain;
use super::eq::{bands_output, is_band};
use super::laws_dynamics::{
    law_compressor_times_are_as_set, law_gate_goes_by_its_settings,
    law_limiter_goes_by_its_settings,
};
use super::laws_eq::broad;
use super::laws_levels::{
    exponentials_follow, is_exponential, is_power_of_ten, law_coefficient_is_exponential,
    law_decibels_count_twentieths, law_hold_time_is_as_set, powers_follow, right_amplitude,
    right_coefficient, usable_level, usable_time,
};
use super::laws_ramp::{followed, law_settled_gain_scales_at_once, reach, slack};
use super::laws_response::{
    amounts, earlier, law_section_is_a_difference_equation, law_section_remembers_two_samples,
    terms,
};
use super::level::Elementary;
use super::meter::peak_after;
use crate::accuracy::{exact, large, norm, tiny};
use crate::single::Single;
use crate::state::Settings;

verus! {

/// A stage that is on makes `made` of a block; one that is off leaves the block alone.
pub open spec fn passes(
    on: bool,
    before: Seq<Single>,
    made: Seq<Single>,
    after: Seq<Single>,
) -> bool {
    &&& on ==> after == made
    &&& !on ==> after == before
}

/// A block goes through every stage that is on, in order: gain, high-pass filter, equalizer, noise
/// gate, compressor, limiter. Each gets what the one before has made, and makes of it what it would
/// make of it by itself; it moves on as it would by itself, and a stage that is off stays as it is.
/// The meter sees what comes out. The blocks that the gain, the filter, the equalizer and the noise
/// gate hand on are returned.
pub proof fn law_enabled_stages_run_in_turn<M: Elementary>(
    m: &M,
    c: VoiceChain,
    input: Seq<Single>,
    squeezed: Seq<Single>,
    later: VoiceChain,
) -> (r: (Seq<Single>, Seq<Single>, Seq<Single>, Seq<Single>))
    requires
        c.is_after_compressor(m, input, squeezed),
        c.moves_to(input, squeezed, later),
    ensures
        passes(c.gain_enabled, input, c.gain.output(input), r.0),
        passes(c.high_pass_enabled, r.0, c.high_pass.output(r.0), r.1),
        passes(c.eq_enabled, r.1, c.eq.output(r.1), r.2),
        passes(c.gate_enabled, r.2, c.gate.output(r.2), r.3),
        c.compressor_enabled ==> c.compressor.is_output(m, r.3, squeezed),
        !c.compressor_enabled ==> squeezed == r.3,
        passes(
            c.limiter_enabled,
            squeezed,
            c.limiter.output(squeezed),
            c.after_limiter(squeezed),
        ),
        c.gain_enabled ==> later.gain == c.gain.after(input),
        c.high_pass_enabled ==> later.high_pass == c.high_pass.after(r.0),
        c.eq_enabled ==> c.eq.moves_to(r.1, later.eq),
        c.gate_enabled ==> later.gate == c.gate.after(r.2),
        c.compressor_enabled ==> later.compressor == c.compressor.after(r.3),
        c.limiter_enabled ==> later.limiter == c.limiter.after(squeezed),
        !c.gain_enabled ==> later.gain == c.gain,
        !c.high_pass_enabled ==> later.high_pass == c.high_pass,
        !c.eq_enabled ==> later.eq == c.eq,
        !c.gate_enabled ==> later.gate == c.gate,
        !c.compressor_enabled ==> later.compressor == c.compressor,
        !c.limiter_enabled ==> later.limiter == c.limiter,
        later.peak_meter.peak == peak_after(c.peak_meter.peak, c.after_limiter(squeezed)),
        later.same_setup(c),
{
    let gained: Seq<Single> = if c.gain_enabled {
        c.gain.output(input)
    } else {
        input
    };
    let passed: Seq<Single> = if c.high_pass_enabled {
        c.high_pass.output(gained)
    } else {
        gained
    };
    let shaped: Seq<Single> = if c.eq_enabled {
        c.eq.output(passed)
    } else {
        passed
    };
    let gated: Seq<Single> = if c.gate_enabled {
        c.gate.output(shaped)
    } else {
        shaped
    };
    (gained, passed, shaped, gated)
}

/// The chain with only its first `k` stages.
pub open spec fn first_stages(c: VoiceChain, k: nat) -> VoiceChain {
    VoiceChain {
        gain_enabled: c.gain_enabled && k > 0,
        high_pass_enabled: c.high_pass_enabled && k > 1,
        eq_enabled: c.eq_enabled && k > 2,
        gate_enabled: c.gate_enabled && k > 3,
        compressor_enabled: c.compressor_enabled && k > 4,
        limiter_enabled: c.limiter_enabled && k > 5,
        ..c
    }
}

/// The chain without its first `k` stages.
pub open spec fn last_stages(c: VoiceChain, k: nat) -> VoiceChain {
    VoiceChain {
        gain_enabled: c.gain_enabled && k <= 0,
        high_pass_enabled: c.high_pass_enabled && k <= 1,
        eq_enabled: c.eq_enabled && k <= 2,
        gate_enabled: c.gate_enabled && k <= 3,
        compressor_enabled: c.compressor_enabled && k <= 4,
        limiter_enabled: c.limiter_enabled && k <= 5,
        ..c
    }
}

/// A chain can be cut between any two stages: what one with the first stages hands to one with the
/// others comes out as it does from the whole. So the chain is its six stages, each by itself, in a
/// row. What leaves the compressor of the whole is returned.
pub proof fn law_chain_can_be_cut_between_stages<M: Elementary>(
    m: &M,
    c: VoiceChain,
    k: nat,
    input: Seq<Single>,
    squeezed_first: Seq<Single>,
    squeezed_last: Seq<Single>,
) -> (squeezed: Seq<Single>)
    requires
        k <= 6,
        first_stages(c, k).is_after_compressor(m, input, squeezed_first),
        last_stages(c, k).is_after_compressor(
            m,
            first_stages(c, k).after_limiter(squeezed_first),
            squeezed_last,
        ),
    ensures
        c.is_after_compressor(m, input, squeezed),
        c.after_limiter(squeezed) == last_stages(c, k).after_limiter(squeezed_last),
{
    if k <= 4 {
        squeezed_last
    } else {
        squeezed_first
    }
}

/// The output of a section obeys its difference equation: every sample is what the coefficients
/// make of the last three that went in, less what they make of the last two that came out, up to
/// rounding.
pub open spec fn obeys(h: History, t: Taps, input: Seq<Single>, output: Seq<Single>) -> bool {
    &&& output.len() == input.len()
    &&& forall|i: int|
        0 <= i < input.len() && stays_finite(h, t, input, output, i) ==> {
            let x = #[trigger] terms(h, t, input, output, i);
            &&& output[i].finite()
            &&& 0x100_0000 as real * norm(exact(output[i]) - (x.0 + x.1 + x.2 - x.3 - x.4))
                <= 8 as real * amounts(x) + 0x1000_0000 as real * tiny()
        }
}

/// No term of the difference equation at a position becomes infinite.
pub open spec fn stays_finite(
    h: History,
    t: Taps,
    input: Seq<Single>,
    output: Seq<Single>,
    i: int,
) -> bool {
    &&& t.b0.finite() && t.b1.finite() && t.b2.finite() && t.a1.finite() && t.a2.finite()
    &&& input[i].finite()
    &&& earlier(input, h.x1, h.x2, i, 1).finite()
    &&& earlier(input, h.x1, h.x2, i, 2).finite()
    &&& earlier(output, h.y1, h.y2, i, 1).finite()
    &&& earlier(output, h.y1, h.y2, i, 2).finite()
    &&& 8 as real * amounts(terms(h, t, input, output, i)) + 8 as real <= broad()
}

/// The history holds the last two samples that went in and came out.
pub open spec fn remembers(
    before: History,
    input: Seq<Single>,
    output: Seq<Single>,
    after: History,
) -> bool {
    let n = input.len() as int;
    &&& after.x1 == earlier(input, before.x1, before.x2, n, 1)
    &&& after.x2 == earlier(input, before.x1, before.x2, n, 2)
    &&& after.y1 == earlier(output, before.y1, before.y2, n, 1)
    &&& after.y2 == earlier(output, before.y1, before.y2, n, 2)
}

/// What a section makes of a block obeys its difference equation.
pub proof fn law_section_obeys(h: History, t: Taps, input: Seq<Single>)
    ensures
        obeys(h, t, input, h.output(t, input)),
        remembers(h, input, h.output(t, input), h.after(t, input)),
{
    let output = h.output(t, input);
    assert forall|i: int| 0 <= i < input.len() && stays_finite(h, t, input, output, i) implies {
        let x = #[trigger] terms(h, t, input, output, i);
        &&& output[i].finite()
        &&& 0x100_0000 as real * norm(exact(output[i]) - (x.0 + x.1 + x.2 - x.3 - x.4)) <= 8 as real
            * amounts(x) + 0x1000_0000 as real * tiny()
    } by {
        law_section_is_a_difference_equation(h, t, input, i);
    }
    law_section_remembers_two_samples(h, t, input);
}

/// A chain with nothing but the gain on, standing at its gain, makes every sample larger by that
/// gain, up to rounding.
pub proof fn law_enabled_gain_scales<M: Elementary>(
    m: &M,
    c: VoiceChain,
    input: Seq<Single>,
    squeezed: Seq<Single>,
    later: VoiceChain,
    i: int,
)
    requires
        c.is_after_compressor(m, input, squeezed),
        c.moves_to(input, squeezed, later),
        c.gain_enabled,
        !c.high_pass_enabled && !c.eq_enabled && !c.gate_enabled,
        !c.compressor_enabled && !c.limiter_enabled,
        c.gain.current_linear == c.gain.gain_linear,
        followed(c.gain.smooth_coeff, c.gain.gain_linear, c.gain.gain_linear),
        0 <= i < input.len(),
        input[i].finite(),
        norm(exact(input[i])) * (2 as real * reach(c.gain.gain_linear, c.gain.gain_linear)
            + 1 as real) <= large(),
    ensures
        ({
            let level = exact(c.gain.level_at((i + 1) as nat));
            let x = exact(input[i]);
            let y = exact(c.after_limiter(squeezed)[i]);
            &&& (0x100_0000 as real * (1 as real - exact(c.gain.smooth_coeff))) * norm(
                level - exact(c.gain.gain_linear),
            ) <= slack(c.gain.gain_linear, c.gain.gain_linear)
            &&& 0x100_0000 as real * norm(y - x * level) <= norm(x * level) + 0x100_0000 as real
                * tiny()
        }),
{
    law_settled_gain_scales_at_once(c.gain, input, i);
}

/// A chain with nothing but the high-pass filter on filters the block.
pub proof fn law_enabled_high_pass_filters<M: Elementary>(
    m: &M,
    c: VoiceChain,
    input: Seq<Single>,
    squeezed: Seq<Single>,
    later: VoiceChain,
)
    requires
        c.is_after_compressor(m, input, squeezed),
        c.moves_to(input, squeezed, later),
        c.high_pass_enabled,
        !c.gain_enabled && !c.eq_enabled && !c.gate_enabled,
        !c.compressor_enabled && !c.limiter_enabled,
    ensures
        obeys(c.high_pass.history, c.high_pass.taps, input, c.after_limiter(squeezed)),
        remembers(
            c.high_pass.history,
            input,
            c.after_limiter(squeezed),
            later.high_pass.history,
        ),
{
    law_section_obeys(c.high_pass.history, c.high_pass.taps, input);
}

/// A chain with nothing but the equalizer on sends the block through the sections of its four
/// bands, one after the other, each of which goes by its own coefficients and remembers its own
/// samples. What goes into the bands, and what comes out of the last, is returned.
pub proof fn law_enabled_equalizer_filters<M: Elementary>(
    m: &M,
    c: VoiceChain,
    input: Seq<Single>,
    squeezed: Seq<Single>,
    later: VoiceChain,
) -> (r: Seq<Seq<Single>>)
    requires
        c.is_after_compressor(m, input, squeezed),
        c.moves_to(input, squeezed, later),
        c.eq_enabled,
        !c.gain_enabled && !c.high_pass_enabled && !c.gate_enabled,
        !c.compressor_enabled && !c.limiter_enabled,
    ensures
        r.len() == 5,
        r[0] == input,
        r[4] == c.after_limiter(squeezed),
        forall|k: int|
            0 <= k < 4 ==> {
                let band = #[trigger] c.eq.bands@[k];
                &&& obeys(band.history, band.taps, r[k], r[k + 1])
                &&& remembers(band.history, r[k], r[k + 1], later.eq.bands@[k].history)
            },
{
    let bands = c.eq.bands@;
    let r = Seq::new(5, |k: int| bands_output(bands, input, k as nat));
    assert forall|k: int| 0 <= k < 4 implies {
        let band = #[trigger] c.eq.bands@[k];
        &&& obeys(band.history, band.taps, r[k], r[k + 1])
        &&& remembers(band.history, r[k], r[k + 1], later.eq.bands@[k].history)
    } by {
        law_section_obeys(bands[k].history, bands[k].taps, r[k]);
        assert(r[k + 1] == bands[k].output(r[k]));
        assert(later.eq.bands@[k] == bands[k].after(bands_output(bands, input, k as nat)));
    }
    r
}

/// The settings decide what a chain does: which stages run, and what each goes by. Levels become
/// amplitudes, times become coefficients and counts for the chain's sample rate, frequencies become
/// filters.
pub proof fn law_settings_reach_their_stages<M: Elementary>(
    m: &M,
    p: spec_fn(real) -> real,
    e: spec_fn(real) -> real,
    c: VoiceChain,
    s: Settings,
    later: VoiceChain,
    d: real,
)
    requires
        is_power_of_ten(p),
        is_exponential(e),
        0 as real <= d <= 1 as real,
        powers_follow(m, p, d),
        exponentials_follow(m, e, d),
        c.takes_on(m, s, later),
    ensures
        later.gain_enabled == s.gain_enabled,
        later.high_pass_enabled == s.high_pass_enabled,
        later.eq_enabled == s.eq_enabled,
        later.gate_enabled == s.gate_enabled,
        later.compressor_enabled == s.compressor_enabled,
        later.limiter_enabled == s.limiter_enabled,
        later.sample_rate == c.sample_rate,
        usable_level(s.gain_db) ==> right_amplitude(p, s.gain_db, later.gain.gain_linear, d),
        is_high_pass(m, s.high_pass_cutoff_hz, c.sample_rate, later.high_pass.taps),
        forall|i: int|
            0 <= i < 4 ==> is_band(
                m,
                c.eq.bands@[i].kind,
                s.eq_band_freq_hz@[i],
                s.eq_band_gain_db@[i],
                s.eq_band_q@[i],
                c.sample_rate,
                (#[trigger] later.eq.bands@[i]).taps,
            ),
        usable_level(s.gate_threshold_db) ==> right_amplitude(
            p,
            s.gate_threshold_db,
            later.gate.threshold_linear,
            d,
        ),
        usable_time(s.gate_attack_ms, c.sample_rate) ==> right_coefficient(
            e,
            s.gate_attack_ms,
            c.sample_rate,
            later.gate.gain_attack_coeff,
            d,
        ),
        usable_time(s.gate_release_ms, c.sample_rate) ==> right_coefficient(
            e,
            s.gate_release_ms,
            c.sample_rate,
            later.gate.gain_release_coeff,
            d,
        ),
        usable_time(s.gate_hold_ms, c.sample_rate) && exact(s.gate_hold_ms) * exact(c.sample_rate)
            <= 0x100_0000_0000 as real ==> 0x100_0000 as real * norm(
            1000 as real * later.gate.hold_samples as real - exact(s.gate_hold_ms) * exact(
                c.sample_rate,
            ),
        ) <= 0x100_0000 as real * 1001 as real + 4 as real * (exact(s.gate_hold_ms) * exact(
            c.sample_rate,
        )),
        later.compressor.threshold_db == s.compressor_threshold_db,
        later.compressor.ratio == s.compressor_ratio,
        usable_time(s.compressor_attack_ms, c.sample_rate) ==> right_coefficient(
            e,
            s.compressor_attack_ms,
            c.sample_rate,
            later.compressor.attack_coeff,
            d,
        ),
        usable_time(s.compressor_release_ms, c.sample_rate) ==> right_coefficient(
            e,
            s.compressor_release_ms,
            c.sample_rate,
            later.compressor.release_coeff,
            d,
        ),
        usable_level(s.compressor_makeup_db) ==> right_amplitude(
            p,
            s.compressor_makeup_db,
            later.compressor.makeup.target,
            d,
        ),
        usable_level(s.limiter_ceiling_db) ==> right_amplitude(
            p,
            s.limiter_ceiling_db,
            later.limiter.ceiling.target,
            d,
        ),
        later.limiter.ceiling.current == later.limiter.ceiling.target,
        usable_time(s.limiter_release_ms, c.sample_rate) ==> right_coefficient(
            e,
            s.limiter_release_ms,
            c.sample_rate,
            later.limiter.release_coeff,
            d,
        ),
{
    let rate = c.sample_rate;
    if usable_level(s.gain_db) {
        law_decibels_count_twentieths(m, p, s.gain_db, later.gain.gain_linear, d);
    }
    law_gate_goes_by_its_settings(m, p, e, later.gate, rate, d);
    if usable_time(s.gate_hold_ms, rate) && exact(s.gate_hold_ms) * exact(rate)
        <= 0x100_0000_0000 as real {
        law_hold_time_is_as_set(m, later.gate, rate);
    }
    law_compressor_times_are_as_set(m, e, later.compressor, rate, d);
    if usable_level(s.compressor_makeup_db) {
        law_decibels_count_twentieths(
            m,
            p,
            s.compressor_makeup_db,
            later.compressor.makeup.target,
            d,
        );
    }
    law_limiter_goes_by_its_settings(m, p, e, later.limiter, rate, d);
}

/// New settings change nothing that is running: no filter forgets a sample, no envelope and no gain
/// jumps, the hold time and the peak go on. Only a new ceiling of the limiter holds at once.
pub proof fn law_settings_keep_what_runs<M: Elementary>(
    m: &M,
    c: VoiceChain,
    s: Settings,
    later: VoiceChain,
)
    requires
        c.takes_on(m, s, later),
    ensures
        later.gain.current_linear == c.gain.current_linear,
        later.gain.smooth_coeff == c.gain.smooth_coeff,
        later.high_pass.history == c.high_pass.history,
        forall|i: int|
            0 <= i < 4 ==> {
                &&& (#[trigger] later.eq.bands@[i]).history == c.eq.bands@[i].history
                &&& later.eq.bands@[i].kind == c.eq.bands@[i].kind
            },
        later.gate.envelope == c.gate.envelope,
        later.gate.gain == c.gate.gain,
        later.gate.hold_counter == c.gate.hold_counter,
        later.compressor.envelope == c.compressor.envelope,
        later.compressor.makeup.current == c.compressor.makeup.current,
        later.limiter.gain == c.limiter.gain,
        later.peak_meter.peak == c.peak_meter.peak,
{
}

/// Preparing a chain for a sample rate keeps what is set, and fits every stage to that rate.
pub proof fn law_preparing_fits_the_sample_rate<M: Elementary>(
    m: &M,
    p: spec_fn(real) -> real,
    e: spec_fn(real) -> real,
    c: VoiceChain,
    sample_rate: Single,
    max_block_size: usize,
    later: VoiceChain,
    d: real,
)
    requires
        is_power_of_ten(p),
        is_exponential(e),
        0 as real <= d <= 1 as real,
        powers_follow(m, p, d),
        exponentials_follow(m, e, d),
        c.prepares(m, sample_rate, max_block_size, later),
    ensures
        later.sample_rate == sample_rate,
        later.gain.gain_linear == c.gain.gain_linear,
        later.gain.current_linear == c.gain.gain_linear,
        usable_time(c.gain.smooth_ms, sample_rate) ==> right_coefficient(
            e,
            c.gain.smooth_ms,
            sample_rate,
            later.gain.smooth_coeff,
            d,
        ),
        is_high_pass(m, c.high_pass.cutoff_hz, sample_rate, later.high_pass.taps),
        forall|i: int|
            0 <= i < 4 ==> is_band(
                m,
                c.eq.bands@[i].kind,
                c.eq.bands@[i].freq_hz,
                c.eq.bands@[i].gain_db,
                c.eq.bands@[i].q,
                sample_rate,
                (#[trigger] later.eq.bands@[i]).taps,
            ),
        usable_level(c.gate.threshold_db) ==> right_amplitude(
            p,
            c.gate.threshold_db,
            later.gate.threshold_linear,
            d,
        ),
        usable_time(c.gate.attack_ms, sample_rate) ==> right_coefficient(
            e,
            c.gate.attack_ms,
            sample_rate,
            later.gate.gain_attack_coeff,
            d,
        ),
        usable_time(c.gate.release_ms, sample_rate) ==> right_coefficient(
            e,
            c.gate.release_ms,
            sample_rate,
            later.gate.gain_release_coeff,
            d,
        ),
        later.compressor.threshold_db == c.compressor.threshold_db,
        later.compressor.ratio == c.compressor.ratio,
        usable_time(c.compressor.attack_ms, sample_rate) ==> right_coefficient(
            e,
            c.compressor.attack_ms,
            sample_rate,
            later.compressor.attack_coeff,
            d,
        ),
        usable_time(c.compressor.release_ms, sample_rate) ==> right_coefficient(
            e,
            c.compressor.release_ms,
            sample_rate,
            later.compressor.release_coeff,
            d,
        ),
        usable_level(c.compressor.makeup_db) ==> right_amplitude(
            p,
            c.compressor.makeup_db,
            later.compressor.makeup.current,
            d,
        ),
        usable_level(c.limiter.ceiling_db) ==> right_amplitude(
            p,
            c.limiter.ceiling_db,
            later.limiter.ceiling.current,
            d,
        ),
        usable_time(c.limiter.release_ms, sample_rate) ==> right_coefficient(
            e,
            c.limiter.release_ms,
            sample_rate,
            later.limiter.release_coeff,
            d,
        ),
        later.gain_enabled == c.gain_enabled,
        later.high_pass_enabled == c.high_pass_enabled,
        later.eq_enabled == c.eq_enabled,
        later.gate_enabled == c.gate_enabled,
        later.compressor_enabled == c.compressor_enabled,
        later.limiter_enabled == c.limiter_enabled,
{
    if usable_time(c.gain.smooth_ms, sample_rate) {
        law_coefficient_is_exponential(
            m,
            e,
            c.gain.smooth_ms,
            sample_rate,
            later.gain.smooth_coeff,
            d,
        );
    }
    law_gate_goes_by_its_settings(m, p, e, later.gate, sample_rate, d);
    law_compressor_times_are_as_set(m, e, later.compressor, sample_rate, d);
    if usable_level(c.compressor.makeup_db) {
        law_decibels_count_twentieths(
            m,
            p,
            c.compressor.makeup_db,
            later.compressor.makeup.target,
            d,
        );
    }
    law_limiter_goes_by_its_settings(m, p, e, later.limiter, sample_rate, d);
}

} // verus!
