//! Runs that must come out alike: of a steady host, of a shelf whose Q is changed, of a chain that
//! was reset.
use vstd::prelude::*;

use super::biquad::{HighPass, History};
use super::chain::VoiceChain;
use super::compressor::Compressor;
use super::eq::{is_band, BandKind, EqBand};
use super::gain::{Gain, SmoothedValue};
use super::gate::Gate;
use super::laws_blocks::{
    joined, law_chain_ignores_block_borders, law_run_of_blocks_is_one_block, runs, written,
};
use super::laws_ramp::{followed, law_snapped_value_stays, slack};
use super::level::{is_level, is_linear, smooth, Elementary};
use super::limiter::Limiter;
use crate::accuracy::{exact, norm};
use crate::numeric::lemma_smooth_at_one;
use crate::single::Single;

verus! {

/// The host answers alike whenever it is asked about the same number.
pub open spec fn steady<M: Elementary>(m: &M) -> bool {
    &&& forall|x: Single, r: Single, s: Single| #[trigger]
        call_ensures(M::sin, (m, x), r) && #[trigger] call_ensures(M::sin, (m, x), s) ==> r == s
    &&& forall|x: Single, r: Single, s: Single| #[trigger]
        call_ensures(M::cos, (m, x), r) && #[trigger] call_ensures(M::cos, (m, x), s) ==> r == s
    &&& forall|x: Single, r: Single, s: Single| #[trigger]
        call_ensures(M::exp, (m, x), r) && #[trigger] call_ensures(M::exp, (m, x), s) ==> r == s
    &&& forall|x: Single, r: Single, s: Single| #[trigger]
        call_ensures(M::power_of_ten, (m, x), r) && #[trigger] call_ensures(
            M::power_of_ten,
            (m, x),
            s,
        ) ==> r == s
    &&& forall|x: Single, r: Single, s: Single| #[trigger]
        call_ensures(M::log10, (m, x), r) && #[trigger] call_ensures(M::log10, (m, x), s) ==> r == s
    &&& forall|x: Single, r: Single, s: Single| #[trigger]
        call_ensures(M::sqrt, (m, x), r) && #[trigger] call_ensures(M::sqrt, (m, x), s) ==> r == s
}

/// A shelf's coefficients do not depend on its Q: what the host may give for one Q, it may give
/// for every other.
pub proof fn law_shelf_ignores_q<M: Elementary>(
    m: &M,
    kind: BandKind,
    freq_hz: Single,
    gain_db: Single,
    q: Single,
    other_q: Single,
    sample_rate: Single,
)
    requires
        !(kind is Peak),
    ensures
        forall|t: super::biquad::Taps|
            is_band(m, kind, freq_hz, gain_db, q, sample_rate, t) == #[trigger] is_band(
                m,
                kind,
                freq_hz,
                gain_db,
                other_q,
                sample_rate,
                t,
            ),
{
}

/// With a steady host, two bands of the same parameters get the same coefficients; for shelves,
/// whatever their Q.
pub proof fn law_like_bands_are_tuned_alike<M: Elementary>(
    m: &M,
    b: EqBand,
    c: EqBand,
    sample_rate: Single,
)
    requires
        steady(m),
        b.tuned(m, sample_rate),
        c.tuned(m, sample_rate),
        b.kind == c.kind,
        b.freq_hz == c.freq_hz,
        b.gain_db == c.gain_db,
        b.q == c.q || !(b.kind is Peak),
    ensures
        b.taps == c.taps,
{
}

proof fn lemma_level_is_one<M: Elementary>(m: &M, linear: Single, r: Single, s: Single)
    requires
        steady(m),
        is_level(m, linear, r),
        is_level(m, linear, s),
    ensures
        r == s,
{
}

/// With a steady host there is one factor for an envelope.
pub proof fn lemma_factor_is_one<M: Elementary>(
    m: &M,
    c: Compressor,
    envelope: Single,
    r: Single,
    s: Single,
)
    requires
        steady(m),
        c.is_factor(m, envelope, r),
        c.is_factor(m, envelope, s),
    ensures
        r == s,
{
    let a = choose|a: Single|
        #[trigger] is_level(m, envelope, a) && is_linear(
            m,
            super::compressor::gain_reduction_db(c.threshold_db, c.ratio, a).negated(),
            r,
        );
    let b = choose|b: Single|
        #[trigger] is_level(m, envelope, b) && is_linear(
            m,
            super::compressor::gain_reduction_db(c.threshold_db, c.ratio, b).negated(),
            s,
        );
    lemma_level_is_one(m, envelope, a, b);
}

/// With a steady host, a compressor makes one thing of a block.
pub proof fn law_compressor_is_steady<M: Elementary>(
    m: &M,
    c: Compressor,
    input: Seq<Single>,
    one: Seq<Single>,
    other: Seq<Single>,
)
    requires
        steady(m),
        c.is_output(m, input, one),
        c.is_output(m, input, other),
    ensures
        one == other,
{
    assert forall|i: int| 0 <= i < one.len() implies one[i] == other[i] by {
        let envelope = c.envelope_after(input.take(i + 1));
        assert(c.compresses(m, input, i, one[i]));
        assert(c.compresses(m, input, i, other[i]));
        let r = choose|r: Single|
            #[trigger] c.is_factor(m, envelope, r) && one[i] == input[i].times(
                r.times(c.makeup.at((i + 1) as nat)),
            );
        let s = choose|s: Single|
            #[trigger] c.is_factor(m, envelope, s) && other[i] == input[i].times(
                s.times(c.makeup.at((i + 1) as nat)),
            );
        lemma_factor_is_one(m, c, envelope, r, s);
    }
    assert(one =~= other);
}

/// The two chains are in every respect the same.
pub open spec fn same_chain(a: VoiceChain, b: VoiceChain) -> bool {
    &&& a.gain == b.gain
    &&& a.high_pass == b.high_pass
    &&& a.eq.bands@ == b.eq.bands@
    &&& a.gate == b.gate
    &&& a.compressor == b.compressor
    &&& a.limiter == b.limiter
    &&& a.peak_meter == b.peak_meter
    &&& a.same_setup(b)
}

/// With a steady host, two chains in the same state make the same of the same block, and end up
/// the same.
pub proof fn law_chain_is_steady<M: Elementary>(
    m: &M,
    c: VoiceChain,
    d: VoiceChain,
    input: Seq<Single>,
    squeezed_c: Seq<Single>,
    squeezed_d: Seq<Single>,
    later_c: VoiceChain,
    later_d: VoiceChain,
)
    requires
        steady(m),
        same_chain(c, d),
        c.is_after_compressor(m, input, squeezed_c),
        c.moves_to(input, squeezed_c, later_c),
        d.is_after_compressor(m, input, squeezed_d),
        d.moves_to(input, squeezed_d, later_d),
    ensures
        c.after_limiter(squeezed_c) == d.after_limiter(squeezed_d),
        same_chain(later_c, later_d),
{
    assert(c.after_gate(input) == d.after_gate(input));
    if c.compressor_enabled {
        law_compressor_is_steady(m, c.compressor, c.after_gate(input), squeezed_c, squeezed_d);
    }
    assert(later_c.eq.bands@ =~= later_d.eq.bands@);
}

/// With a steady host, a chain that gets two blocks at once writes the same samples as one in the
/// same state that gets them one after the other, and the two end up the same: no stage buffers or
/// delays samples across blocks.
pub proof fn law_chain_runs_are_equal<M: Elementary>(
    m: &M,
    whole: VoiceChain,
    first: VoiceChain,
    a: Seq<Single>,
    b: Seq<Single>,
    squeezed: Seq<Single>,
    squeezed_a: Seq<Single>,
    squeezed_b: Seq<Single>,
    whole_later: VoiceChain,
    second: VoiceChain,
    third: VoiceChain,
)
    requires
        steady(m),
        same_chain(whole, first),
        whole.is_after_compressor(m, a + b, squeezed),
        whole.moves_to(a + b, squeezed, whole_later),
        first.is_after_compressor(m, a, squeezed_a),
        first.moves_to(a, squeezed_a, second),
        second.is_after_compressor(m, b, squeezed_b),
        second.moves_to(b, squeezed_b, third),
    ensures
        whole.after_limiter(squeezed) == first.after_limiter(squeezed_a) + second.after_limiter(
            squeezed_b,
        ),
        same_chain(whole_later, third),
{
    law_chain_ignores_block_borders(m, first, second, third, a, b, squeezed_a, squeezed_b);
    law_chain_is_steady(
        m,
        whole,
        first,
        a + b,
        squeezed,
        squeezed_a + squeezed_b,
        whole_later,
        third,
    );
}

/// The two chains have the same parameters, coefficients and flags; what runs may differ.
pub open spec fn same_parameters(a: VoiceChain, b: VoiceChain) -> bool {
    &&& a.gain == (Gain { current_linear: a.gain.current_linear, ..b.gain })
    &&& a.high_pass == (HighPass { history: a.high_pass.history, ..b.high_pass })
    &&& forall|i: int|
        0 <= i < 4 ==> #[trigger] a.eq.bands@[i] == (EqBand {
            history: a.eq.bands@[i].history,
            ..b.eq.bands@[i]
        })
    &&& a.gate == (Gate {
        envelope: a.gate.envelope,
        gain: a.gate.gain,
        hold_counter: a.gate.hold_counter,
        ..b.gate
    })
    &&& a.compressor == (Compressor {
        envelope: a.compressor.envelope,
        makeup: SmoothedValue { current: a.compressor.makeup.current, ..b.compressor.makeup },
        ..b.compressor
    })
    &&& a.limiter == (Limiter {
        gain: a.limiter.gain,
        ceiling: SmoothedValue { current: a.limiter.ceiling.current, ..b.limiter.ceiling },
        ..b.limiter
    })
    &&& a.same_setup(b)
}

/// Nothing has run yet: no stage remembers a sample, and the gain stands at its target.
pub open spec fn at_rest(c: VoiceChain) -> bool {
    &&& c.gain.current_linear == c.gain.gain_linear
    &&& c.high_pass.history == History::silent()
    &&& forall|i: int| 0 <= i < 4 ==> (#[trigger] c.eq.bands@[i]).history == History::silent()
    &&& c.gate.envelope == Single::zero()
    &&& c.gate.gain == Single::zero()
    &&& c.gate.hold_counter == 0
    &&& c.compressor.envelope == Single::zero()
    &&& c.limiter.gain == Single::one()
    &&& c.peak_meter.peak == Single::zero()
}

/// A new chain that was prepared is at rest, and its makeup gain and its ceiling stand at their
/// targets.
pub proof fn law_prepared_chain_is_at_rest<M: Elementary>(
    m: &M,
    fresh: VoiceChain,
    sample_rate: Single,
    block: usize,
    ready: VoiceChain,
)
    requires
        fresh.is_new(m),
        fresh.prepares(m, sample_rate, block, ready),
    ensures
        at_rest(ready),
        ready.compressor.makeup.current == ready.compressor.makeup.target,
        ready.limiter.ceiling.current == ready.limiter.ceiling.target,
{
    assert forall|i: int| 0 <= i < 4 implies (#[trigger] ready.eq.bands@[i]).history
        == History::silent() by {
        assert(ready.eq.bands@[i].history == fresh.eq.bands@[i].history);
    }
}

proof fn lemma_gate_parameters(g: Gate, input: Seq<Single>)
    ensures
        g.after(input) == (Gate {
            envelope: g.after(input).envelope,
            gain: g.after(input).gain,
            hold_counter: g.after(input).hold_counter,
            ..g
        }),
    decreases input.len(),
{
    if input.len() > 0 {
        lemma_gate_parameters(g, input.drop_last());
    }
}

/// Processing a block changes no parameter, no coefficient and no flag.
pub proof fn law_processing_keeps_parameters<M: Elementary>(
    m: &M,
    c: VoiceChain,
    input: Seq<Single>,
    squeezed: Seq<Single>,
    later: VoiceChain,
)
    requires
        c.is_after_compressor(m, input, squeezed),
        c.moves_to(input, squeezed, later),
    ensures
        same_parameters(later, c),
{
    lemma_gate_parameters(c.gate, c.after_eq(input));
    assert forall|i: int| 0 <= i < 4 implies #[trigger] later.eq.bands@[i] == (EqBand {
        history: later.eq.bands@[i].history,
        ..c.eq.bands@[i]
    }) by {
    }
}

/// A chain that was reset is the one that was at rest, with the same parameters: everything that
/// runs is as it was before the first sample, but for the makeup gain and the limiter's ceiling,
/// which stay where they are on their way to their targets. Where these two stand at their targets
/// it is the same chain.
pub proof fn law_reset_brings_back_rest(rested: VoiceChain, used: VoiceChain, reset: VoiceChain)
    requires
        at_rest(rested),
        same_parameters(used, rested),
        used.resets(reset),
    ensures
        at_rest(reset),
        same_parameters(reset, rested),
        reset.compressor == (Compressor { makeup: used.compressor.makeup, ..rested.compressor }),
        reset.limiter == (Limiter { ceiling: used.limiter.ceiling, ..rested.limiter }),
        used.compressor.makeup == rested.compressor.makeup && used.limiter.ceiling
            == rested.limiter.ceiling ==> same_chain(reset, rested),
{
    assert forall|i: int| 0 <= i < 4 implies #[trigger] reset.eq.bands@[i] == rested.eq.bands@[i] by {
        assert(used.eq.bands@[i] == (EqBand {
            history: used.eq.bands@[i].history,
            ..rested.eq.bands@[i]
        }));
        assert(rested.eq.bands@[i].history == History::silent());
    }
    assert(reset.eq.bands@ =~= rested.eq.bands@);
}

/// The smoothed parameter is the other one, but for what rounding has made of the value that it
/// stands at.
pub open spec fn hardly_moved(now: SmoothedValue, before: SmoothedValue) -> bool {
    &&& now == (SmoothedValue { current: now.current, ..before })
    &&& (0x100_0000 as real * (1 as real - exact(before.coeff))) * norm(
        exact(now.current) - exact(before.target),
    ) <= slack(before.target, before.target)
}

/// A prepared chain that has processed a block, of any length, and was then reset is as it was
/// prepared: all stages but the compressor's makeup gain and the limiter's ceiling are the same to
/// the bit, and these two have hardly moved from their targets.
pub proof fn law_reset_undoes_processing<M: Elementary>(
    m: &M,
    rested: VoiceChain,
    input: Seq<Single>,
    squeezed: Seq<Single>,
    used: VoiceChain,
    reset: VoiceChain,
)
    requires
        at_rest(rested),
        rested.compressor.makeup.current == rested.compressor.makeup.target,
        rested.limiter.ceiling.current == rested.limiter.ceiling.target,
        followed(
            rested.compressor.makeup.coeff,
            rested.compressor.makeup.target,
            rested.compressor.makeup.target,
        ),
        followed(
            rested.limiter.ceiling.coeff,
            rested.limiter.ceiling.target,
            rested.limiter.ceiling.target,
        ),
        rested.is_after_compressor(m, input, squeezed),
        rested.moves_to(input, squeezed, used),
        used.resets(reset),
    ensures
        at_rest(reset),
        same_parameters(reset, rested),
        hardly_moved(reset.compressor.makeup, rested.compressor.makeup),
        hardly_moved(reset.limiter.ceiling, rested.limiter.ceiling),
        same_chain(
            (VoiceChain {
                compressor: Compressor {
                    makeup: rested.compressor.makeup,
                    ..reset.compressor
                },
                limiter: Limiter { ceiling: rested.limiter.ceiling, ..reset.limiter },
                ..reset
            }),
            rested,
        ),
{
    law_processing_keeps_parameters(m, rested, input, squeezed, used);
    law_reset_brings_back_rest(rested, used, reset);
    let makeup = rested.compressor.makeup;
    let ceiling = rested.limiter.ceiling;
    law_snapped_value_stays(makeup, rested.after_gate(input).len());
    law_snapped_value_stays(ceiling, squeezed.len());
    law_snapped_value_stays(makeup, 0);
    law_snapped_value_stays(ceiling, 0);
    assert forall|i: int| 0 <= i < 4 implies #[trigger] reset.eq.bands@[i] == rested.eq.bands@[i] by {
        assert(used.eq.bands@[i] == (EqBand {
            history: used.eq.bands@[i].history,
            ..rested.eq.bands@[i]
        }));
        assert(rested.eq.bands@[i].history == History::silent());
    }
    assert(reset.eq.bands@ =~= rested.eq.bands@);
}

/// The smoothed parameter stands at its target, and a step leaves it there to the bit.
pub open spec fn stands_still(s: SmoothedValue) -> bool {
    &&& s.current == s.target
    &&& smooth(s.coeff, s.target, s.target) == s.target
}

/// A parameter that stands still is at its target after any number of steps, to the bit.
pub proof fn law_still_parameter_keeps_its_value(s: SmoothedValue, n: nat)
    requires
        stands_still(s),
    ensures
        s.at(n) == s.target,
    decreases n,
{
    if n > 0 {
        law_still_parameter_keeps_its_value(s, (n - 1) as nat);
    }
}

/// A parameter that stands at one, as the makeup gain does at zero dB, stands still.
pub proof fn law_unity_stands_still(s: SmoothedValue)
    requires
        s.current == Single::one(),
        s.target == Single::one(),
        s.coeff.bits <= Single::one().bits,
    ensures
        stands_still(s),
{
    lemma_smooth_at_one(s.coeff);
}

/// A prepared chain that has processed a block, of any length, and was then reset is the same chain
/// to the bit, where its makeup gain and its ceiling stand still.
pub proof fn law_reset_restores_the_chain<M: Elementary>(
    m: &M,
    rested: VoiceChain,
    input: Seq<Single>,
    squeezed: Seq<Single>,
    used: VoiceChain,
    reset: VoiceChain,
)
    requires
        at_rest(rested),
        stands_still(rested.compressor.makeup),
        stands_still(rested.limiter.ceiling),
        rested.is_after_compressor(m, input, squeezed),
        rested.moves_to(input, squeezed, used),
        used.resets(reset),
    ensures
        same_chain(reset, rested),
{
    law_processing_keeps_parameters(m, rested, input, squeezed, used);
    law_still_parameter_keeps_its_value(rested.compressor.makeup, rested.after_gate(input).len());
    law_still_parameter_keeps_its_value(rested.limiter.ceiling, squeezed.len());
    law_reset_brings_back_rest(rested, used, reset);
}

/// A prepared chain that has processed any number of blocks and was then reset is as it was
/// prepared, in the same sense as after one block.
pub proof fn law_reset_undoes_any_run<M: Elementary>(
    m: &M,
    chains: Seq<VoiceChain>,
    blocks: Seq<Seq<Single>>,
    squeezed: Seq<Seq<Single>>,
    reset: VoiceChain,
)
    requires
        runs(m, chains, blocks, squeezed),
        at_rest(chains[0]),
        chains[0].compressor.makeup.current == chains[0].compressor.makeup.target,
        chains[0].limiter.ceiling.current == chains[0].limiter.ceiling.target,
        followed(
            chains[0].compressor.makeup.coeff,
            chains[0].compressor.makeup.target,
            chains[0].compressor.makeup.target,
        ),
        followed(
            chains[0].limiter.ceiling.coeff,
            chains[0].limiter.ceiling.target,
            chains[0].limiter.ceiling.target,
        ),
        chains.last().resets(reset),
    ensures
        at_rest(reset),
        same_parameters(reset, chains[0]),
        hardly_moved(reset.compressor.makeup, chains[0].compressor.makeup),
        hardly_moved(reset.limiter.ceiling, chains[0].limiter.ceiling),
        same_chain(
            (VoiceChain {
                compressor: Compressor {
                    makeup: chains[0].compressor.makeup,
                    ..reset.compressor
                },
                limiter: Limiter { ceiling: chains[0].limiter.ceiling, ..reset.limiter },
                ..reset
            }),
            chains[0],
        ),
{
    law_run_of_blocks_is_one_block(m, chains, blocks, squeezed);
    law_reset_undoes_processing(
        m,
        chains[0],
        joined(blocks),
        joined(squeezed),
        chains.last(),
        reset,
    );
}

/// With a steady host, two chains in the same state write the same for the same stream, however
/// either cuts it into blocks, and end up the same.
pub proof fn law_cutting_into_blocks_does_not_matter<M: Elementary>(
    m: &M,
    chains: Seq<VoiceChain>,
    blocks: Seq<Seq<Single>>,
    squeezed: Seq<Seq<Single>>,
    other_chains: Seq<VoiceChain>,
    other_blocks: Seq<Seq<Single>>,
    other_squeezed: Seq<Seq<Single>>,
)
    requires
        steady(m),
        runs(m, chains, blocks, squeezed),
        runs(m, other_chains, other_blocks, other_squeezed),
        same_chain(chains[0], other_chains[0]),
        joined(blocks) == joined(other_blocks),
    ensures
        joined(written(chains, squeezed)) == joined(written(other_chains, other_squeezed)),
        same_chain(chains.last(), other_chains.last()),
{
    law_run_of_blocks_is_one_block(m, chains, blocks, squeezed);
    law_run_of_blocks_is_one_block(m, other_chains, other_blocks, other_squeezed);
    law_chain_is_steady(
        m,
        chains[0],
        other_chains[0],
        joined(blocks),
        joined(squeezed),
        joined(other_squeezed),
        chains.last(),
        other_chains.last(),
    );
}

/// A prepared chain that has processed any number of blocks and was then reset behaves as one that
/// was only prepared: with a steady host, and where the makeup gain and the ceiling stand still, it
/// writes the same for the same block, measures the same peak, and ends up the same.
pub proof fn law_reset_chain_behaves_as_prepared<M: Elementary>(
    m: &M,
    chains: Seq<VoiceChain>,
    blocks: Seq<Seq<Single>>,
    squeezed: Seq<Seq<Single>>,
    reset: VoiceChain,
    prepared: VoiceChain,
    input: Seq<Single>,
    squeezed_reset: Seq<Single>,
    squeezed_prepared: Seq<Single>,
    reset_later: VoiceChain,
    prepared_later: VoiceChain,
)
    requires
        steady(m),
        runs(m, chains, blocks, squeezed),
        at_rest(chains[0]),
        stands_still(chains[0].compressor.makeup),
        stands_still(chains[0].limiter.ceiling),
        chains.last().resets(reset),
        same_chain(prepared, chains[0]),
        reset.is_after_compressor(m, input, squeezed_reset),
        reset.moves_to(input, squeezed_reset, reset_later),
        prepared.is_after_compressor(m, input, squeezed_prepared),
        prepared.moves_to(input, squeezed_prepared, prepared_later),
    ensures
        reset.after_limiter(squeezed_reset) == prepared.after_limiter(squeezed_prepared),
        reset_later.peak_meter.peak == prepared_later.peak_meter.peak,
        same_chain(reset_later, prepared_later),
{
    law_run_of_blocks_is_one_block(m, chains, blocks, squeezed);
    law_reset_restores_the_chain(
        m,
        chains[0],
        joined(blocks),
        joined(squeezed),
        chains.last(),
        reset,
    );
    law_chain_is_steady(
        m,
        reset,
        prepared,
        input,
        squeezed_reset,
        squeezed_prepared,
        reset_later,
        prepared_later,
    );
}

} // verus!
