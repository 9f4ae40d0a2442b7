//! How a stream is cut into blocks does not matter.
use vstd::prelude::*;

use super::biquad::{History, Taps};
use super::chain::VoiceChain;
use super::compressor::Compressor;
use super::eq::{bands_output, EqBand};
use super::gain::Gain;
use super::gate::Gate;
use super::level::{ramp, Elementary};
use super::limiter::Limiter;
use super::meter::peak_after;
use crate::single::Single;

verus! {

proof fn lemma_ramp_split(c: Single, x: Single, t: Single, a: nat, b: nat)
    ensures
        ramp(c, ramp(c, x, t, a), t, b) == ramp(c, x, t, a + b),
    decreases b,
{
    if b > 0 {
        lemma_ramp_split(c, x, t, a, (b - 1) as nat);
    }
}

/// The gain stage makes the same of two blocks, one after the other, as of both at once.
pub proof fn law_gain_ignores_block_borders(g: Gain, a: Seq<Single>, b: Seq<Single>)
    ensures
        g.output(a + b) == g.output(a) + g.after(a).output(b),
        g.after(a + b) == g.after(a).after(b),
{
    let whole = g.output(a + b);
    let parts = g.output(a) + g.after(a).output(b);
    assert forall|i: int| 0 <= i < whole.len() implies whole[i] == parts[i] by {
        if i >= a.len() {
            lemma_ramp_split(
                g.smooth_coeff,
                g.current_linear,
                g.gain_linear,
                a.len(),
                (i - a.len() + 1) as nat,
            );
        }
    }
    assert(whole =~= parts);
    lemma_ramp_split(g.smooth_coeff, g.current_linear, g.gain_linear, a.len(), b.len());
}

proof fn lemma_gate_after_split(g: Gate, a: Seq<Single>, b: Seq<Single>)
    ensures
        g.after(a + b) == g.after(a).after(b),
    decreases b.len(),
{
    if b.len() == 0 {
        assert(a + b =~= a);
    } else {
        lemma_gate_after_split(g, a, b.drop_last());
        assert((a + b).drop_last() =~= a + b.drop_last());
    }
}

/// The noise gate makes the same of two blocks, one after the other, as of both at once.
pub proof fn law_gate_ignores_block_borders(g: Gate, a: Seq<Single>, b: Seq<Single>)
    ensures
        g.output(a + b) == g.output(a) + g.after(a).output(b),
        g.after(a + b) == g.after(a).after(b),
{
    let whole = g.output(a + b);
    let parts = g.output(a) + g.after(a).output(b);
    assert forall|i: int| 0 <= i < whole.len() implies whole[i] == parts[i] by {
        if i < a.len() {
            assert((a + b).take(i + 1) =~= a.take(i + 1));
        } else {
            let k = i - a.len();
            lemma_gate_after_split(g, a, b.take(k + 1));
            assert((a + b).take(i + 1) =~= a + b.take(k + 1));
        }
    }
    assert(whole =~= parts);
    lemma_gate_after_split(g, a, b);
}

proof fn lemma_limiter_gain_split(l: Limiter, a: Seq<Single>, b: Seq<Single>)
    ensures
        l.gain_after(a + b) == l.after(a).gain_after(b),
    decreases b.len(),
{
    if b.len() == 0 {
        assert(a + b =~= a);
    } else {
        lemma_limiter_gain_split(l, a, b.drop_last());
        assert((a + b).drop_last() =~= a + b.drop_last());
        lemma_ramp_split(
            l.ceiling.coeff,
            l.ceiling.current,
            l.ceiling.target,
            a.len(),
            b.len(),
        );
    }
}

/// The limiter makes the same of two blocks, one after the other, as of both at once.
pub proof fn law_limiter_ignores_block_borders(l: Limiter, a: Seq<Single>, b: Seq<Single>)
    ensures
        l.output(a + b) == l.output(a) + l.after(a).output(b),
        l.after(a + b) == l.after(a).after(b),
{
    let whole = l.output(a + b);
    let parts = l.output(a) + l.after(a).output(b);
    assert forall|i: int| 0 <= i < whole.len() implies whole[i] == parts[i] by {
        if i < a.len() {
            assert((a + b).take(i + 1) =~= a.take(i + 1));
        } else {
            let k = i - a.len();
            lemma_limiter_gain_split(l, a, b.take(k + 1));
            assert((a + b).take(i + 1) =~= a + b.take(k + 1));
        }
    }
    assert(whole =~= parts);
    lemma_limiter_gain_split(l, a, b);
    lemma_ramp_split(l.ceiling.coeff, l.ceiling.current, l.ceiling.target, a.len(), b.len());
}

proof fn lemma_history_split(h: History, t: Taps, a: Seq<Single>, b: Seq<Single>)
    ensures
        h.after(t, a + b) == h.after(t, a).after(t, b),
    decreases b.len(),
{
    if b.len() == 0 {
        assert(a + b =~= a);
    } else {
        lemma_history_split(h, t, a, b.drop_last());
        assert((a + b).drop_last() =~= a + b.drop_last());
    }
}

/// A filter section makes the same of two blocks, one after the other, as of both at once.
pub proof fn law_section_ignores_block_borders(
    h: History,
    t: Taps,
    a: Seq<Single>,
    b: Seq<Single>,
)
    ensures
        h.output(t, a + b) == h.output(t, a) + h.after(t, a).output(t, b),
        h.after(t, a + b) == h.after(t, a).after(t, b),
{
    let whole = h.output(t, a + b);
    let parts = h.output(t, a) + h.after(t, a).output(t, b);
    assert forall|i: int| 0 <= i < whole.len() implies whole[i] == parts[i] by {
        if i < a.len() {
            assert((a + b).take(i) =~= a.take(i));
        } else {
            let k = i - a.len();
            lemma_history_split(h, t, a, b.take(k));
            assert((a + b).take(i) =~= a + b.take(k));
        }
    }
    assert(whole =~= parts);
    lemma_history_split(h, t, a, b);
}

/// The bands of an equalizer after a block.
pub open spec fn bands_after(bands: Seq<EqBand>, input: Seq<Single>) -> Seq<EqBand> {
    Seq::new(bands.len(), |i: int| bands[i].after(bands_output(bands, input, i as nat)))
}

/// The bands of an equalizer make the same of two blocks, one after the other, as of both at
/// once.
pub proof fn law_bands_ignore_block_borders(
    bands: Seq<EqBand>,
    a: Seq<Single>,
    b: Seq<Single>,
    n: nat,
)
    requires
        n <= bands.len(),
    ensures
        bands_output(bands, a + b, n) == bands_output(bands, a, n) + bands_output(
            bands_after(bands, a),
            b,
            n,
        ),
    decreases n,
{
    if n > 0 {
        law_bands_ignore_block_borders(bands, a, b, (n - 1) as nat);
        let band = bands[n - 1];
        law_section_ignores_block_borders(
            band.history,
            band.taps,
            bands_output(bands, a, (n - 1) as nat),
            bands_output(bands_after(bands, a), b, (n - 1) as nat),
        );
    }
}

/// The meter shows the same after two blocks as after both at once.
pub proof fn law_meter_ignores_block_borders(peak: Single, a: Seq<Single>, b: Seq<Single>)
    ensures
        peak_after(peak, a + b) == peak_after(peak_after(peak, a), b),
    decreases b.len(),
{
    if b.len() == 0 {
        assert(a + b =~= a);
    } else {
        law_meter_ignores_block_borders(peak, a, b.drop_last());
        assert((a + b).drop_last() =~= a + b.drop_last());
    }
}

proof fn lemma_envelope_split(c: Compressor, a: Seq<Single>, b: Seq<Single>)
    ensures
        c.envelope_after(a + b) == c.after(a).envelope_after(b),
    decreases b.len(),
{
    if b.len() == 0 {
        assert(a + b =~= a);
    } else {
        lemma_envelope_split(c, a, b.drop_last());
        assert((a + b).drop_last() =~= a + b.drop_last());
    }
}

/// What the compressor may make of two blocks, one after the other, it may make of both at once.
pub proof fn law_compressor_ignores_block_borders<M: Elementary>(
    m: &M,
    c: Compressor,
    a: Seq<Single>,
    b: Seq<Single>,
    out_a: Seq<Single>,
    out_b: Seq<Single>,
)
    requires
        c.is_output(m, a, out_a),
        c.after(a).is_output(m, b, out_b),
    ensures
        c.is_output(m, a + b, out_a + out_b),
        c.after(a + b) == c.after(a).after(b),
{
    let whole = a + b;
    let out = out_a + out_b;
    let later = c.after(a);
    assert forall|i: int| 0 <= i < whole.len() implies c.compresses(m, whole, i, #[trigger] out[i]) by {
        if i < a.len() {
            assert(whole.take(i + 1) =~= a.take(i + 1));
            assert(c.compresses(m, a, i, out_a[i]));
        } else {
            let k = i - a.len();
            assert(later.compresses(m, b, k, out_b[k]));
            lemma_envelope_split(c, a, b.take(k + 1));
            assert(whole.take(i + 1) =~= a + b.take(k + 1));
            lemma_ramp_split(
                c.makeup.coeff,
                c.makeup.current,
                c.makeup.target,
                a.len(),
                (k + 1) as nat,
            );
            let factor = choose|factor: Single|
                #[trigger] later.is_factor(m, later.envelope_after(b.take(k + 1)), factor)
                    && out_b[k] == b[k].times(factor.times(later.makeup.at((k + 1) as nat)));
            assert(c.is_factor(m, c.envelope_after(whole.take(i + 1)), factor));
        }
    }
    lemma_envelope_split(c, a, b);
    lemma_ramp_split(c.makeup.coeff, c.makeup.current, c.makeup.target, a.len(), b.len());
}

proof fn lemma_eq_split(
    first: crate::dsp::eq::Eq,
    second: crate::dsp::eq::Eq,
    third: crate::dsp::eq::Eq,
    a: Seq<Single>,
    b: Seq<Single>,
)
    requires
        first.moves_to(a, second),
        second.moves_to(b, third),
    ensures
        first.moves_to(a + b, third),
        first.output(a + b) == first.output(a) + second.output(b),
{
    let bands = first.bands@;
    let mid = bands_after(bands, a);
    assert(second.bands@ =~= mid);
    law_bands_ignore_block_borders(bands, a, b, 4);
    assert forall|i: int| 0 <= i < 4 implies #[trigger] third.bands@[i] == bands[i].after(
        bands_output(bands, a + b, i as nat),
    ) by {
        law_bands_ignore_block_borders(bands, a, b, i as nat);
        assert(second.bands@[i] == bands[i].after(bands_output(bands, a, i as nat)));
        lemma_history_split(
            bands[i].history,
            bands[i].taps,
            bands_output(bands, a, i as nat),
            bands_output(mid, b, i as nat),
        );
    }
}

/// How a stream is cut into blocks does not matter to a chain: what it may make of two blocks,
/// one after the other, it may make of both at once, and it ends up the same.
pub proof fn law_chain_ignores_block_borders<M: Elementary>(
    m: &M,
    first: VoiceChain,
    second: VoiceChain,
    third: VoiceChain,
    a: Seq<Single>,
    b: Seq<Single>,
    squeezed_a: Seq<Single>,
    squeezed_b: Seq<Single>,
)
    requires
        first.is_after_compressor(m, a, squeezed_a),
        first.moves_to(a, squeezed_a, second),
        second.is_after_compressor(m, b, squeezed_b),
        second.moves_to(b, squeezed_b, third),
    ensures
        first.is_after_compressor(m, a + b, squeezed_a + squeezed_b),
        first.after_limiter(squeezed_a + squeezed_b) == first.after_limiter(squeezed_a)
            + second.after_limiter(squeezed_b),
        first.moves_to(a + b, squeezed_a + squeezed_b, third),
{
    let squeezed = squeezed_a + squeezed_b;
    law_gain_ignores_block_borders(first.gain, a, b);
    assert(first.after_gain(a + b) == first.after_gain(a) + second.after_gain(b));
    law_section_ignores_block_borders(
        first.high_pass.history,
        first.high_pass.taps,
        first.after_gain(a),
        second.after_gain(b),
    );
    assert(first.after_high_pass(a + b) == first.after_high_pass(a) + second.after_high_pass(b));
    if first.eq_enabled {
        lemma_eq_split(
            first.eq,
            second.eq,
            third.eq,
            first.after_high_pass(a),
            second.after_high_pass(b),
        );
    }
    assert(first.after_eq(a + b) == first.after_eq(a) + second.after_eq(b));
    law_gate_ignores_block_borders(first.gate, first.after_eq(a), second.after_eq(b));
    assert(first.after_gate(a + b) == first.after_gate(a) + second.after_gate(b));
    if first.compressor_enabled {
        law_compressor_ignores_block_borders(
            m,
            first.compressor,
            first.after_gate(a),
            second.after_gate(b),
            squeezed_a,
            squeezed_b,
        );
    }
    law_limiter_ignores_block_borders(first.limiter, squeezed_a, squeezed_b);
    assert(first.after_limiter(squeezed) == first.after_limiter(squeezed_a)
        + second.after_limiter(squeezed_b));
    law_meter_ignores_block_borders(
        first.peak_meter.peak,
        first.after_limiter(squeezed_a),
        second.after_limiter(squeezed_b),
    );
}

/// Blocks, one behind the other.
pub open spec fn joined(blocks: Seq<Seq<Single>>) -> Seq<Single>
    decreases blocks.len(),
{
    if blocks.len() == 0 {
        Seq::empty()
    } else {
        joined(blocks.drop_last()) + blocks.last()
    }
}

/// A chain processes blocks, one after the other: it stands as `chains[i]` before `blocks[i]`,
/// which leaves the compressor as `squeezed[i]`.
pub open spec fn runs<M: Elementary>(
    m: &M,
    chains: Seq<VoiceChain>,
    blocks: Seq<Seq<Single>>,
    squeezed: Seq<Seq<Single>>,
) -> bool {
    &&& chains.len() == blocks.len() + 1
    &&& squeezed.len() == blocks.len()
    &&& forall|i: int|
        0 <= i < blocks.len() ==> {
            &&& chains[i].is_after_compressor(m, #[trigger] blocks[i], squeezed[i])
            &&& chains[i].moves_to(blocks[i], squeezed[i], chains[i + 1])
        }
}

/// What a chain writes for each of the blocks that it processes.
pub open spec fn written(chains: Seq<VoiceChain>, squeezed: Seq<Seq<Single>>) -> Seq<Seq<Single>> {
    Seq::new(squeezed.len(), |i: int| chains[i].after_limiter(squeezed[i]))
}

proof fn lemma_bands_of_nothing(bands: Seq<EqBand>, n: nat)
    ensures
        bands_output(bands, Seq::empty(), n) == Seq::<Single>::empty(),
    decreases n,
{
    if n > 0 {
        lemma_bands_of_nothing(bands, (n - 1) as nat);
        assert(bands_output(bands, Seq::empty(), n) =~= Seq::empty());
    }
}

/// An empty block changes nothing.
pub proof fn law_empty_block_changes_nothing<M: Elementary>(m: &M, c: VoiceChain)
    ensures
        ({
            let none = Seq::<Single>::empty();
            &&& c.is_after_compressor(m, none, none)
            &&& c.after_limiter(none) == none
            &&& c.moves_to(none, none, c)
        }),
{
    let none = Seq::<Single>::empty();
    assert(c.after_gain(none) =~= none);
    assert(c.after_high_pass(none) =~= none);
    lemma_bands_of_nothing(c.eq.bands@, 4);
    assert(c.after_eq(none) =~= none);
    assert forall|i: int| 0 <= i < 4 implies #[trigger] c.eq.bands@[i] == c.eq.bands@[i].after(
        bands_output(c.eq.bands@, none, i as nat),
    ) by {
        lemma_bands_of_nothing(c.eq.bands@, i as nat);
    }
    assert(c.after_gate(none) =~= none);
    assert(c.after_limiter(none) =~= none);
}

/// However a stream is cut into blocks, a chain writes for it what it may write for the whole
/// stream at once, and ends up the same.
pub proof fn law_run_of_blocks_is_one_block<M: Elementary>(
    m: &M,
    chains: Seq<VoiceChain>,
    blocks: Seq<Seq<Single>>,
    squeezed: Seq<Seq<Single>>,
)
    requires
        runs(m, chains, blocks, squeezed),
    ensures
        chains[0].is_after_compressor(m, joined(blocks), joined(squeezed)),
        chains[0].after_limiter(joined(squeezed)) == joined(written(chains, squeezed)),
        chains[0].moves_to(joined(blocks), joined(squeezed), chains.last()),
    decreases blocks.len(),
{
    if blocks.len() == 0 {
        law_empty_block_changes_nothing(m, chains[0]);
    } else {
        let k = blocks.len() - 1;
        let before = chains.drop_last();
        let earlier = blocks.drop_last();
        let pressed = squeezed.drop_last();
        assert forall|i: int| 0 <= i < earlier.len() implies {
            &&& before[i].is_after_compressor(m, #[trigger] earlier[i], pressed[i])
            &&& before[i].moves_to(earlier[i], pressed[i], before[i + 1])
        } by {
            assert(earlier[i] == blocks[i]);
        }
        law_run_of_blocks_is_one_block(m, before, earlier, pressed);
        assert(blocks[k] == blocks.last());
        law_chain_ignores_block_borders(
            m,
            chains[0],
            chains[k],
            chains.last(),
            joined(earlier),
            blocks.last(),
            joined(pressed),
            squeezed.last(),
        );
        assert(written(chains, squeezed).drop_last() =~= written(before, pressed));
    }
}

} // verus!
