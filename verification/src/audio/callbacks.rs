//! What happens to the samples of a block, between the devices and the rings.
use vstd::prelude::*;

use super::ring::{
    asked, line_in, line_out, offerings, polls, posts_out, received, room, sent, stock, taken,
    SampleReceiver, SampleSender, SettingsReceiver,
};
use crate::dsp::chain::VoiceChain;
use crate::dsp::level::{is_level, linear_to_db, Elementary, Processor};
use crate::dsp::meter::PeakMeter;
use crate::numbers::FADE;
use crate::single::Single;
use crate::state::Settings;

verus! {

/// How many frames a block holds. A device without channels counts as one with a single channel.
pub open spec fn spec_frames(len: usize, channels: usize) -> usize {
    if channels == 0 {
        len
    } else {
        len / channels
    }
}

/// How many frames a block holds. A device without channels counts as one with a single channel.
#[verifier::when_used_as_spec(spec_frames)]
pub fn frames(len: usize, channels: usize) -> (r: usize)
    ensures
        r == spec_frames(len, channels),
{
    if channels == 0 {
        len
    } else {
        len / channels
    }
}

/// The first channel of an interleaved block.
pub open spec fn first_channel(data: Seq<Single>, channels: nat, n: nat) -> Seq<Single> {
    Seq::new(n, |f: int| data[f * channels])
}

/// Those of the offered samples that were accepted, in order.
pub open spec fn accepted(offered: Seq<Single>, kept: Seq<bool>) -> Seq<Single>
    decreases kept.len(),
{
    if kept.len() == 0 {
        Seq::empty()
    } else if kept.last() {
        accepted(offered, kept.drop_last()).push(offered[kept.len() - 1])
    } else {
        accepted(offered, kept.drop_last())
    }
}

/// The ring went from `before` to `after` by being offered every one of the samples in order, each
/// accepted or dropped; all are accepted as long as the ring has not yet taken as many as it holds.
pub open spec fn offers(before: &SampleSender, after: &SampleSender, offered: Seq<Single>) -> bool {
    &&& room(after) == room(before)
    &&& offerings(after) == offerings(before) + offered.len()
    &&& exists|kept: Seq<bool>|
        kept.len() == offered.len() && sent(after) == sent(before) + #[trigger] accepted(
            offered,
            kept,
        )
    &&& sent(before).len() + offered.len() <= room(before) ==> sent(after) == sent(before) + offered
}

/// The first `kept.len()` samples have been offered, and `kept` tells which were accepted.
spec fn offered_so_far(
    before: &SampleSender,
    now: &SampleSender,
    offered: Seq<Single>,
    kept: Seq<bool>,
) -> bool {
    &&& room(now) == room(before)
    &&& offerings(now) == offerings(before) + kept.len()
    &&& line_in(now) == line_in(before)
    &&& before.in_line() ==> now.in_line()
    &&& kept.len() <= offered.len()
    &&& sent(now) == sent(before) + accepted(offered, kept)
    &&& sent(before).len() + offered.len() <= room(before) ==> sent(now) == sent(before)
        + offered.take(kept.len() as int)
}

proof fn lemma_nothing_offered(before: &SampleSender, offered: Seq<Single>)
    ensures
        offered_so_far(before, before, offered, Seq::empty()),
{
    assert(sent(before) + accepted(offered, Seq::empty()) =~= sent(before));
    assert(sent(before) + offered.take(0) =~= sent(before));
}

proof fn lemma_one_more_offered(
    before: &SampleSender,
    now: &SampleSender,
    then: &SampleSender,
    offered: Seq<Single>,
    kept: Seq<bool>,
    ok: bool,
)
    requires
        offered_so_far(before, now, offered, kept),
        kept.len() < offered.len(),
        room(then) == room(now),
        offerings(then) == offerings(now) + 1,
        line_in(then) == line_in(now),
        now.in_line() ==> then.in_line(),
        sent(now).len() < room(now) ==> ok,
        sent(then) == if ok {
            sent(now).push(offered[kept.len() as int])
        } else {
            sent(now)
        },
    ensures
        offered_so_far(before, then, offered, kept.push(ok)),
{
    let k: int = kept.len() as int;
    let more = kept.push(ok);
    assert(more.drop_last() =~= kept);
    if ok {
        assert((sent(before) + accepted(offered, kept)).push(offered[k]) =~= sent(before)
            + accepted(offered, more));
        assert((sent(before) + offered.take(k)).push(offered[k]) =~= sent(before) + offered.take(
            k + 1,
        ));
    }
}

/// Offers samples to a ring, one after the other; those that find no room are dropped.
pub fn offer_all(tx: &mut SampleSender, samples: &[Single])
    ensures
        offers(old(tx), final(tx), samples@),
        old(tx).in_line() ==> final(tx).in_line(),
        line_in(final(tx)) == line_in(old(tx)),
{
    let ghost start = *tx;
    let ghost mut kept: Seq<bool> = Seq::empty();
    let n: usize = samples.len();
    let mut k: usize = 0;
    proof {
        lemma_nothing_offered(tx, samples@);
    }
    while k < n
        invariant
            n == samples@.len(),
            k <= n,
            kept.len() == k,
            offered_so_far(&start, tx, samples@, kept),
        decreases n - k,
    {
        let ghost now = *tx;
        let ok: bool = tx.send(samples[k]);
        proof {
            lemma_one_more_offered(&start, &now, tx, samples@, kept, ok);
            kept = kept.push(ok);
        }
        k = k + 1;
    }
    assert(samples@.take(n as int) =~= samples@);
}

/// Takes a block from the microphone: offers the first channel of each frame to the ring, and
/// drops what finds no room. On an aggregate device the microphone comes first; averaging all
/// channels would mix in the loopback.
pub fn take_input(tx: &mut SampleSender, channels: usize, data: &[Single])
    ensures
        offers(
            old(tx),
            final(tx),
            first_channel(data@, channels as nat, frames(data@.len() as usize, channels) as nat),
        ),
        old(tx).in_line() ==> final(tx).in_line(),
        line_in(final(tx)) == line_in(old(tx)),
{
    let n: usize = frames(data.len(), channels);
    let ghost start = *tx;
    let ghost want = first_channel(data@, channels as nat, n as nat);
    let ghost mut kept: Seq<bool> = Seq::empty();
    let mut f: usize = 0;
    proof {
        lemma_nothing_offered(tx, want);
    }
    while f < n
        invariant
            n == frames(data@.len() as usize, channels),
            data@.len() <= usize::MAX,
            f <= n,
            want == first_channel(data@, channels as nat, n as nat),
            kept.len() == f,
            offered_so_far(&start, tx, want, kept),
        decreases n - f,
    {
        proof {
            let len: int = data@.len() as int;
            let c: int = channels as int;
            assert(f * c < len) by (nonlinear_arith)
                requires
                    c >= 0,
                    0 <= f < n,
                    c == 0 ==> n == len,
                    c > 0 ==> n == len / c,
                    len >= 0,
            ;
        }
        let ghost now = *tx;
        let ok: bool = tx.send(data[f * channels]);
        proof {
            lemma_one_more_offered(&start, &now, tx, want, kept, ok);
            kept = kept.push(ok);
        }
        f = f + 1;
    }
    assert(want.take(n as int) =~= want);
}

/// The samples among answers of a ring, in order.
pub open spec fn arrived(got: Seq<Option<Single>>) -> Seq<Single>
    decreases got.len(),
{
    if got.len() == 0 {
        Seq::empty()
    } else {
        match got.last() {
            Some(x) => arrived(got.drop_last()).push(x),
            None => arrived(got.drop_last()),
        }
    }
}

/// What a block is made of: the samples that arrived, and silence where none did.
pub open spec fn filled(got: Seq<Option<Single>>) -> Seq<Single> {
    Seq::new(
        got.len(),
        |k: int|
            match got[k] {
                Some(x) => x,
                None => Single::zero(),
            },
    )
}

/// What goes on after `got`, starting from the sample `last`: the last sample that arrived,
/// faded by a tenth for every one that did not arrive since.
pub open spec fn faded(last: Single, got: Seq<Option<Single>>) -> Single
    decreases got.len(),
{
    if got.len() == 0 {
        last
    } else {
        match got.last() {
            Some(x) => x,
            None => faded(last, got.drop_last()).times(Single::from_bits(FADE)),
        }
    }
}

/// What a block is made of: the samples that arrived, and a fading one where none did.
pub open spec fn filled_fading(last: Single, got: Seq<Option<Single>>) -> Seq<Single> {
    Seq::new(got.len(), |k: int| faded(last, got.take(k + 1)))
}

/// `got` are the next answers of a ring that goes from `before` to `after`, which was asked once for
/// each. There is a sample in each as long as not all have come out that the ring started with.
pub open spec fn answers(
    before: &SampleReceiver,
    after: &SampleReceiver,
    got: Seq<Option<Single>>,
) -> bool {
    &&& received(after) == received(before) + arrived(got)
    &&& line_out(after) == line_out(before)
    &&& stock(after) == stock(before)
    &&& asked(after) == asked(before) + got.len()
    &&& forall|k: int|
        0 <= k < got.len() && received(before).len() + k < stock(before)
            ==> #[trigger] got[k] is Some
    &&& before.in_line() ==> after.in_line()
}

/// No more samples arrive than were asked for.
pub proof fn lemma_arrived_len(got: Seq<Option<Single>>)
    ensures
        arrived(got).len() <= got.len(),
    decreases got.len(),
{
    if got.len() > 0 {
        lemma_arrived_len(got.drop_last());
    }
}

/// Nothing was asked yet.
pub proof fn lemma_no_answer(before: &SampleReceiver)
    ensures
        answers(before, before, Seq::empty()),
{
    assert(received(before) + arrived(Seq::empty()) =~= received(before));
}

/// One more answer.
pub proof fn lemma_one_more_answer(
    before: &SampleReceiver,
    now: &SampleReceiver,
    then: &SampleReceiver,
    got: Seq<Option<Single>>,
    r: Option<Single>,
)
    requires
        answers(before, now, got),
        received(then) == match r {
            Some(x) => received(now).push(x),
            None => received(now),
        },
        line_out(then) == line_out(now),
        stock(then) == stock(now),
        asked(then) == asked(now) + 1,
        received(now).len() < stock(now) ==> r is Some,
        now.in_line() ==> then.in_line(),
    ensures
        answers(before, then, got.push(r)),
{
    let more = got.push(r);
    assert(more.drop_last() =~= got);
    lemma_arrived_len(got);
    if r is Some {
        assert((received(before) + arrived(got)).push(r->0) =~= received(before) + arrived(more));
    }
}

/// Reads a block from a ring; where none has arrived, a sample is silent.
pub fn pull(rx: &mut SampleReceiver, n: usize, mono: &mut Vec<Single>)
    ensures
        exists|got: Seq<Option<Single>>|
            {
                &&& got.len() == n
                &&& #[trigger] answers(old(rx), final(rx), got)
                &&& final(mono)@ == filled(got)
            },
{
    let ghost start = *rx;
    let ghost mut got: Seq<Option<Single>> = Seq::empty();
    mono.clear();
    let mut k: usize = 0;
    proof {
        lemma_no_answer(rx);
    }
    assert(mono@ =~= filled(got));
    while k < n
        invariant
            k <= n,
            got.len() == k,
            answers(&start, rx, got),
            mono@ == filled(got),
        decreases n - k,
    {
        let ghost now = *rx;
        let r: Option<Single> = rx.receive();
        proof {
            lemma_one_more_answer(&start, &now, rx, got, r);
            got = got.push(r);
        }
        let x: Single = match r {
            Some(x) => x,
            None => Single::zero(),
        };
        mono.push(x);
        k = k + 1;
        assert(mono@ =~= filled(got));
    }
}

/// Reads a block from a ring; where none has arrived, the last sample goes on, fading. Hard
/// silence would sound robotic.
pub fn pull_fading(rx: &mut SampleReceiver, n: usize, last: &mut Single, mono: &mut Vec<Single>)
    ensures
        exists|got: Seq<Option<Single>>|
            {
                &&& got.len() == n
                &&& #[trigger] answers(old(rx), final(rx), got)
                &&& final(mono)@ == filled_fading(*old(last), got)
                &&& *final(last) == faded(*old(last), got)
            },
{
    let ghost start = *rx;
    let ghost first = *last;
    let ghost mut got: Seq<Option<Single>> = Seq::empty();
    mono.clear();
    let mut k: usize = 0;
    proof {
        lemma_no_answer(rx);
    }
    assert(mono@ =~= filled_fading(first, got));
    while k < n
        invariant
            k <= n,
            got.len() == k,
            answers(&start, rx, got),
            *last == faded(first, got),
            mono@ == filled_fading(first, got),
        decreases n - k,
    {
        let ghost now = *rx;
        let ghost before = got;
        let r: Option<Single> = rx.receive();
        proof {
            lemma_one_more_answer(&start, &now, rx, got, r);
            got = got.push(r);
            assert(got.drop_last() =~= before);
            assert(got.take(k + 1) =~= got);
        }
        match r {
            Some(x) => {
                *last = x;
            },
            None => {
                *last = last.times(Single::from_bits(FADE));
            },
        }
        mono.push(*last);
        k = k + 1;
        proof {
            assert forall|j: int| 0 <= j < k implies #[trigger] mono@[j] == filled_fading(
                first,
                got,
            )[j] by {
                if j < k - 1 {
                    assert(got.take(j + 1) =~= before.take(j + 1));
                    assert(mono@[j] == filled_fading(first, before)[j]);
                }
            }
            assert(mono@ =~= filled_fading(first, got));
        }
    }
}

/// An interleaved block with the same sample on every channel of a frame.
pub open spec fn fanned(mono: Seq<Single>, channels: nat, len: nat) -> Seq<Single> {
    Seq::new(len, |i: int| mono[i / (channels as int)])
}

/// Writes a block to an output device, the same sample on every channel.
pub fn fan_out(mono: &Vec<Single>, channels: usize, data: &mut [Single])
    requires
        channels > 0,
        old(data)@.len() <= mono@.len() * channels,
    ensures
        final(data)@ == fanned(mono@, channels as nat, old(data)@.len()),
{
    let n: usize = data.len();
    let mut i: usize = 0;
    while i < n
        invariant
            channels > 0,
            n == data@.len(),
            n <= mono@.len() * channels,
            i <= n,
            forall|j: int| 0 <= j < i ==> #[trigger] data@[j] == mono@[j / (channels as int)],
        decreases n - i,
    {
        proof {
            let c: int = channels as int;
            assert((i as int) / c < mono@.len()) by (nonlinear_arith)
                requires
                    c > 0,
                    0 <= i < mono@.len() * c,
                    c == channels,
            ;
        }
        data[i] = mono[i / channels];
        i = i + 1;
    }
    assert(data@ =~= fanned(mono@, channels as nat, n as nat));
}

/// The output side of a plain session: reads the ring, runs the chain, writes the device.
pub struct PassthroughOutput {
    pub channels: usize,
    pub rx: SampleReceiver,
    pub chain: VoiceChain,
    pub mono: Vec<Single>,
}

/// One block of a plain session: the ring answers `got`, the compressor leaves `squeezed`, the
/// chain ends up as `later`, and `data` goes to the device.
pub open spec fn plays<M: Elementary>(
    m: &M,
    chain: VoiceChain,
    block: Seq<Single>,
    squeezed: Seq<Single>,
    later: VoiceChain,
    channels: usize,
    data: Seq<Single>,
) -> bool {
    &&& chain.is_after_compressor(m, block, squeezed)
    &&& chain.moves_to(block, squeezed, later)
    &&& data == fanned(chain.after_limiter(squeezed), channels as nat, data.len())
}

impl PassthroughOutput {
    /// Makes one block for the device.
    pub fn fill<M: Elementary>(&mut self, m: &M, data: &mut [Single])
        requires
            old(self).channels > 0,
            old(data)@.len() % (old(self).channels as nat) == 0,
        ensures
            final(self).channels == old(self).channels,
            final(data)@.len() == old(data)@.len(),
            exists|got: Seq<Option<Single>>, squeezed: Seq<Single>|
                {
                    &&& got.len() == old(data)@.len() / (old(self).channels as nat)
                    &&& #[trigger] answers(&old(self).rx, &final(self).rx, got)
                    &&& #[trigger] plays(
                        m,
                        old(self).chain,
                        filled(got),
                        squeezed,
                        final(self).chain,
                        old(self).channels,
                        final(data)@,
                    )
                },
    {
        let n: usize = frames(data.len(), self.channels);
        let ghost ring = self.rx;
        pull(&mut self.rx, n, &mut self.mono);
        let ghost got = choose|got: Seq<Option<Single>>|
            got.len() == n && #[trigger] answers(&ring, &self.rx, got) && self.mono@ == filled(got);
        let ghost start = self.chain;
        self.chain.process(m, self.mono.as_mut_slice());
        let ghost squeezed = choose|squeezed: Seq<Single>|
            {
                &&& #[trigger] start.is_after_compressor(m, filled(got), squeezed)
                &&& self.mono@ == start.after_limiter(squeezed)
                &&& start.moves_to(filled(got), squeezed, self.chain)
            };
        proof {
            lemma_enough(data@.len(), self.channels as nat);
        }
        fan_out(&self.mono, self.channels, data);
        assert(answers(&old(self).rx, &self.rx, got));
        assert(plays(m, start, filled(got), squeezed, self.chain, self.channels, data@));
    }
}

proof fn lemma_enough(len: nat, channels: nat)
    requires
        channels > 0,
        len % channels == 0,
    ensures
        len <= (len / channels) * channels,
{
    let n: int = (len / channels) as int;
    let c: int = channels as int;
    vstd::arithmetic::div_mod::lemma_fundamental_div_mod(len as int, c);
    assert(n * c == c * n) by (nonlinear_arith);
}

/// The output side of an engine session: takes on new settings, reads the ring, runs the chain,
/// meters the result, feeds the monitor, and writes the device.
pub struct EngineOutput {
    pub channels: usize,
    pub rx: SampleReceiver,
    pub chain: VoiceChain,
    pub mono: Vec<Single>,
    /// What goes on, fading, when the ring runs dry.
    pub last: Single,
    pub settings: SettingsReceiver,
    pub monitor: SampleSender,
}

/// What was waiting in a ring of settings that goes from `before` to `after`, which was asked once.
pub open spec fn waited(
    before: &SettingsReceiver,
    after: &SettingsReceiver,
    waiting: Option<Settings>,
) -> bool {
    &&& taken(after) == match waiting {
        Some(s) => taken(before).push(s),
        None => taken(before),
    }
    &&& posts_out(after) == posts_out(before)
    &&& polls(after) == polls(before) + 1
    &&& waiting matches Some(s) ==> s == posts_out(before)[taken(before).len()]
    &&& before.in_line() ==> after.in_line()
}

/// The chain takes on the settings that were waiting, if any were.
pub open spec fn adapts<M: Elementary>(
    m: &M,
    chain: VoiceChain,
    waiting: Option<Settings>,
    later: VoiceChain,
) -> bool {
    match waiting {
        Some(s) => chain.takes_on(m, s, later),
        None => later == chain,
    }
}

impl EngineOutput {
    /// `later` is this side after one block for which the settings `waiting` were waiting, `data`
    /// is what the device gets, and `peak` are the bits of the block's peak: the chain takes on the
    /// settings, what the ring gives is processed, metered and fanned out, and the monitor is fed
    /// while it is active. The meter starts anew for the next block.
    pub open spec fn makes<M: Elementary>(
        self,
        m: &M,
        waiting: Option<Settings>,
        monitor_active: bool,
        later: EngineOutput,
        data: Seq<Single>,
        peak: u32,
    ) -> bool {
        &&& later.channels == self.channels
        &&& exists|
            ready: VoiceChain,
            got: Seq<Option<Single>>,
            squeezed: Seq<Single>,
            played: VoiceChain,
        |
            {
                &&& #[trigger] adapts(m, self.chain, waiting, ready)
                &&& got.len() == data.len() / (self.channels as nat)
                &&& #[trigger] answers(&self.rx, &later.rx, got)
                &&& later.last == faded(self.last, got)
                &&& #[trigger] plays(
                    m,
                    ready,
                    filled_fading(self.last, got),
                    squeezed,
                    played,
                    self.channels,
                    data,
                )
                &&& peak == played.peak_meter.peak.bits
                &&& later.chain == (VoiceChain {
                    peak_meter: PeakMeter { peak: Single::zero() },
                    ..played
                })
                &&& if monitor_active {
                    offers(&self.monitor, &later.monitor, ready.after_limiter(squeezed))
                } else {
                    later.monitor == self.monitor
                }
            }
    }

    /// Makes one block for the device, and returns the bits of the block's peak. First takes on
    /// the settings that the window has sent, if any wait.
    pub fn fill<M: Elementary>(&mut self, m: &M, monitor_active: bool, data: &mut [Single]) -> (peak:
        u32)
        requires
            old(self).channels > 0,
            old(data)@.len() % (old(self).channels as nat) == 0,
        ensures
            final(data)@.len() == old(data)@.len(),
            exists|waiting: Option<Settings>|
                {
                    &&& #[trigger] waited(&old(self).settings, &final(self).settings, waiting)
                    &&& old(self).makes(
                        m,
                        waiting,
                        monitor_active,
                        *final(self),
                        final(data)@,
                        peak,
                    )
                },
    {
        let waiting: Option<Settings> = self.settings.take();
        let ghost fresh = waiting;
        let peak: u32 = self.fill_with(m, waiting, monitor_active, data);
        assert(waited(&old(self).settings, &self.settings, fresh));
        assert(old(self).makes(m, fresh, monitor_active, *self, data@, peak));
        peak
    }

    /// Makes one block for the device, and returns the bits of the block's peak, given the
    /// settings that were waiting, if any were.
    pub fn fill_with<M: Elementary>(
        &mut self,
        m: &M,
        waiting: Option<Settings>,
        monitor_active: bool,
        data: &mut [Single],
    ) -> (peak: u32)
        requires
            old(self).channels > 0,
            old(data)@.len() % (old(self).channels as nat) == 0,
        ensures
            final(data)@.len() == old(data)@.len(),
            final(self).settings == old(self).settings,
            old(self).makes(m, waiting, monitor_active, *final(self), final(data)@, peak),
    {
        let ghost start = *self;
        let ghost fresh = waiting;
        if let Some(s) = waiting {
            self.chain.apply_settings(m, &s);
        }
        let ghost ready = self.chain;
        assert(adapts(m, start.chain, fresh, ready));
        let n: usize = frames(data.len(), self.channels);
        pull_fading(&mut self.rx, n, &mut self.last, &mut self.mono);
        let ghost got = choose|got: Seq<Option<Single>>|
            {
                &&& got.len() == n
                &&& #[trigger] answers(&start.rx, &self.rx, got)
                &&& self.mono@ == filled_fading(start.last, got)
                &&& self.last == faded(start.last, got)
            };
        assert(answers(&start.rx, &self.rx, got));
        let ghost block = self.mono@;
        self.chain.process(m, self.mono.as_mut_slice());
        let ghost played = self.chain;
        let ghost squeezed = choose|squeezed: Seq<Single>|
            {
                &&& #[trigger] ready.is_after_compressor(m, block, squeezed)
                &&& self.mono@ == ready.after_limiter(squeezed)
                &&& ready.moves_to(block, squeezed, played)
            };
        let peak: Single = self.chain.peak_meter.peak_linear();
        self.chain.peak_meter.reset();
        if monitor_active {
            offer_all(&mut self.monitor, self.mono.as_slice());
        }
        proof {
            lemma_enough(data@.len(), self.channels as nat);
        }
        fan_out(&self.mono, self.channels, data);
        assert(adapts(m, start.chain, fresh, ready));
        assert(answers(&start.rx, &self.rx, got));
        assert(plays(
            m,
            ready,
            filled_fading(start.last, got),
            squeezed,
            played,
            self.channels,
            data@,
        ));
        peak.to_bits()
    }
}

/// The level of a block's peak, from its bits.
pub fn peak_db<M: Elementary>(m: &M, bits: u32) -> (r: Single)
    ensures
        is_level(m, Single::from_bits(bits), r),
{
    linear_to_db(m, Single::from_bits(bits))
}

} // verus!
