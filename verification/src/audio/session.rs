//! What a session is made of: rings with silence in them, and a chain with its settings.
use vstd::prelude::*;

use super::callbacks::{answers, arrived, EngineOutput, PassthroughOutput};
use super::ring::{
    asked, line_in, line_out, offerings, primed_ring, received, room, sent, stock, SampleReceiver,
    SampleSender, SettingsReceiver,
};
use crate::dsp::chain::VoiceChain;
use crate::dsp::level::Elementary;
use crate::single::Single;
use crate::state::Settings;

verus! {

/// How many frames a plain session is behind its input.
pub const PASSTHROUGH_LATENCY: usize = 4096;

/// The size that an engine session's rings are measured in, in frames.
pub const ENGINE_LATENCY: usize = 2048;

/// The chain of a session: a new one, prepared for the output's rate, with the settings applied.
pub open spec fn set_up<M: Elementary>(
    m: &M,
    out_rate: u32,
    block: usize,
    settings: Settings,
    chain: VoiceChain,
) -> bool {
    exists|fresh: VoiceChain, ready: VoiceChain|
        {
            &&& #[trigger] fresh.is_new(m)
            &&& fresh.prepares(m, Single::from_u32(out_rate), block, ready)
            &&& #[trigger] ready.takes_on(m, settings, chain)
        }
}

/// Makes the chain of a session.
pub fn session_chain<M: Elementary>(m: &M, out_rate: u32, block: usize, settings: &Settings) -> (r:
    VoiceChain)
    ensures
        set_up(m, out_rate, block, *settings, r),
{
    let mut chain: VoiceChain = VoiceChain::new(m);
    let ghost fresh = chain;
    chain.prepare(m, Single::from_u32(out_rate), block);
    let ghost ready = chain;
    chain.apply_settings(m, settings);
    assert(fresh.is_new(m));
    assert(ready.takes_on(m, *settings, chain));
    chain
}

/// A ring that nothing was read from, with `silence` silent samples in it.
pub open spec fn primed(
    tx: &SampleSender,
    rx: &SampleReceiver,
    capacity: nat,
    silence: nat,
) -> bool {
    &&& sent(tx) == Seq::new(silence, |k: int| Single::zero())
    &&& received(rx) == Seq::<Single>::empty()
    &&& stock(rx) == silence
    &&& offerings(tx) == 0
    &&& asked(rx) == 0
    &&& room(tx) == capacity
    &&& line_in(tx) == line_out(rx)
    &&& tx.in_line()
    &&& rx.in_line()
}

/// A primed ring does not run dry at once: whatever the writing end does, the first reads find
/// the silence that the ring started with.
pub proof fn law_primed_ring_does_not_run_dry(
    tx: &SampleSender,
    rx: &SampleReceiver,
    capacity: nat,
    silence: nat,
    after: &SampleReceiver,
    got: Seq<Option<Single>>,
)
    requires
        primed(tx, rx, capacity, silence),
        answers(rx, after, got),
        got.len() <= silence,
    ensures
        got == Seq::new(got.len(), |k: int| Some(Single::zero())),
{
    assert(forall|k: int| 0 <= k < got.len() ==> #[trigger] got[k] is Some);
    lemma_all_arrived(got);
    assert forall|k: int| 0 <= k < got.len() implies #[trigger] got[k] == Some(Single::zero()) by {
        assert(received(after)[k] == arrived(got)[k]);
        assert(received(after)[k] == line_out(after)[k as nat]);
        assert(sent(tx)[k] == line_in(tx)[k as nat]);
    }
    assert(got =~= Seq::new(got.len(), |k: int| Some(Single::zero())));
}

proof fn lemma_all_arrived(got: Seq<Option<Single>>)
    requires
        forall|k: int| 0 <= k < got.len() ==> #[trigger] got[k] is Some,
    ensures
        arrived(got).len() == got.len(),
        forall|k: int| 0 <= k < got.len() ==> got[k] == Some(#[trigger] arrived(got)[k]),
    decreases got.len(),
{
    if got.len() > 0 {
        let fewer = got.drop_last();
        assert forall|k: int| 0 <= k < fewer.len() implies #[trigger] fewer[k] is Some by {
            assert(fewer[k] == got[k]);
        }
        lemma_all_arrived(fewer);
        assert(got.last() is Some);
        assert forall|k: int| 0 <= k < got.len() implies got[k] == Some(
            #[trigger] arrived(got)[k],
        ) by {
            if k < fewer.len() {
                assert(fewer[k] == Some(arrived(fewer)[k]));
            }
        }
    }
}

/// A plain session: the input's end of the ring, and the output side.
pub struct PassthroughSession {
    pub input: SampleSender,
    pub output: PassthroughOutput,
}

/// Makes a plain session. The ring holds four times the latency, and starts with as much silence
/// as the latency, so that the output does not run dry at once.
pub fn passthrough_session<M: Elementary>(
    m: &M,
    out_rate: u32,
    out_channels: usize,
    settings: &Settings,
) -> (r: PassthroughSession)
    ensures
        primed(&r.input, &r.output.rx, 16384, 4096),
        set_up(m, out_rate, PASSTHROUGH_LATENCY, *settings, r.output.chain),
        r.output.channels == out_channels,
{
    let (input, rx) = primed_ring(PASSTHROUGH_LATENCY * 4, PASSTHROUGH_LATENCY);
    let chain: VoiceChain = session_chain(m, out_rate, PASSTHROUGH_LATENCY, settings);
    PassthroughSession {
        input,
        output: PassthroughOutput {
            channels: out_channels,
            rx,
            chain,
            mono: Vec::with_capacity(PASSTHROUGH_LATENCY * 2),
        },
    }
}

/// An engine session: the input's end of the ring, the output side, and the monitor's end of its
/// ring.
pub struct EngineSession {
    pub input: SampleSender,
    pub output: EngineOutput,
    pub monitor: SampleReceiver,
}

/// Makes an engine session. The ring from the input starts half full of silence; the one to the
/// monitor starts a quarter full.
pub fn engine_session<M: Elementary>(
    m: &M,
    out_rate: u32,
    out_channels: usize,
    settings: &Settings,
    incoming: SettingsReceiver,
) -> (r: EngineSession)
    ensures
        primed(&r.input, &r.output.rx, 16384, 8192),
        primed(&r.output.monitor, &r.monitor, 8192, 2048),
        set_up(m, out_rate, ENGINE_LATENCY, *settings, r.output.chain),
        r.output.channels == out_channels,
        r.output.last == Single::zero(),
        r.output.settings == incoming,
{
    let capacity: usize = ENGINE_LATENCY * 8;
    let (input, rx) = primed_ring(capacity, capacity / 2);
    let (feed, monitor) = primed_ring(ENGINE_LATENCY * 4, ENGINE_LATENCY);
    let chain: VoiceChain = session_chain(m, out_rate, ENGINE_LATENCY, settings);
    EngineSession {
        input,
        output: EngineOutput {
            channels: out_channels,
            rx,
            chain,
            mono: Vec::with_capacity(ENGINE_LATENCY * 2),
            last: Single::zero(),
            settings: incoming,
            monitor: feed,
        },
        monitor,
    }
}

} // verus!
