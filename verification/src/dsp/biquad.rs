//! Second-order filter sections, and the high-pass filter made of one.
use vstd::prelude::*;

use super::level::{Elementary, Processor};
use crate::numbers::{MINUS_TWO, PI, SQRT_HALF, TWO};
use crate::single::Single;

verus! {

/// Filter coefficients, divided by `a0` so that the difference equation needs no division.
#[derive(Clone, Copy, Debug, PartialEq, Eq, Structural)]
pub struct Taps {
    pub b0: Single,
    pub b1: Single,
    pub b2: Single,
    pub a1: Single,
    pub a2: Single,
}

/// The last two inputs and outputs.
#[derive(Clone, Copy, Debug, PartialEq, Eq, Structural)]
pub struct History {
    pub x1: Single,
    pub x2: Single,
    pub y1: Single,
    pub y2: Single,
}

impl Taps {
    /// The coefficients that pass a signal through.
    pub open spec fn spec_identity() -> Taps {
        Taps {
            b0: Single::one(),
            b1: Single::zero(),
            b2: Single::zero(),
            a1: Single::zero(),
            a2: Single::zero(),
        }
    }

    /// The coefficients that pass a signal through.
    #[verifier::when_used_as_spec(spec_identity)]
    pub fn identity() -> (r: Taps)
        ensures
            r == Taps::spec_identity(),
    {
        Taps {
            b0: Single::one(),
            b1: Single::zero(),
            b2: Single::zero(),
            a1: Single::zero(),
            a2: Single::zero(),
        }
    }

    /// Coefficients divided by `a0`.
    pub open spec fn spec_normalised(
        b0: Single,
        b1: Single,
        b2: Single,
        a0: Single,
        a1: Single,
        a2: Single,
    ) -> Taps {
        Taps { b0: b0.over(a0), b1: b1.over(a0), b2: b2.over(a0), a1: a1.over(a0), a2: a2.over(a0) }
    }

    /// Coefficients divided by `a0`.
    #[verifier::when_used_as_spec(spec_normalised)]
    pub fn normalised(
        b0: Single,
        b1: Single,
        b2: Single,
        a0: Single,
        a1: Single,
        a2: Single,
    ) -> (r: Taps)
        ensures
            r == Taps::spec_normalised(b0, b1, b2, a0, a1, a2),
    {
        Taps { b0: b0.over(a0), b1: b1.over(a0), b2: b2.over(a0), a1: a1.over(a0), a2: a2.over(a0) }
    }
}

impl History {
    /// Silence.
    pub open spec fn spec_silent() -> History {
        History {
            x1: Single::zero(),
            x2: Single::zero(),
            y1: Single::zero(),
            y2: Single::zero(),
        }
    }

    /// Silence.
    #[verifier::when_used_as_spec(spec_silent)]
    pub fn silent() -> (r: History)
        ensures
            r == History::spec_silent(),
    {
        History {
            x1: Single::zero(),
            x2: Single::zero(),
            y1: Single::zero(),
            y2: Single::zero(),
        }
    }

    /// The output for one input: the difference equation.
    pub open spec fn answer(self, t: Taps, x: Single) -> Single {
        t.b0.times(x).plus(t.b1.times(self.x1)).plus(t.b2.times(self.x2)).minus(
            t.a1.times(self.y1),
        ).minus(t.a2.times(self.y2))
    }

    /// The history one sample later.
    pub open spec fn advanced(self, t: Taps, x: Single) -> History {
        History { x1: x, x2: self.x1, y1: self.answer(t, x), y2: self.y1 }
    }

    /// The history after a block.
    pub open spec fn after(self, t: Taps, input: Seq<Single>) -> History
        decreases input.len(),
    {
        if input.len() == 0 {
            self
        } else {
            self.after(t, input.drop_last()).advanced(t, input.last())
        }
    }

    /// What a section makes of a block.
    pub open spec fn output(self, t: Taps, input: Seq<Single>) -> Seq<Single> {
        Seq::new(input.len(), |i: int| self.after(t, input.take(i)).answer(t, input[i]))
    }
}

/// Runs a block through one section.
pub fn run_section(taps: Taps, history: &mut History, buffer: &mut [Single])
    ensures
        final(buffer)@ == old(history).output(taps, old(buffer)@),
        *final(history) == old(history).after(taps, old(buffer)@),
{
    let ghost input = buffer@;
    let ghost start = *history;
    let n: usize = buffer.len();
    let mut i: usize = 0;
    assert(input.take(0) =~= Seq::<Single>::empty());
    while i < n
        invariant
            n == input.len(),
            buffer@.len() == n,
            i <= n,
            *history == start.after(taps, input.take(i as int)),
            forall|j: int| i <= j < n ==> buffer@[j] == input[j],
            forall|j: int| 0 <= j < i ==> buffer@[j] == start.output(taps, input)[j],
        decreases n - i,
    {
        let x: Single = buffer[i];
        let y: Single = taps.b0.times(x).plus(taps.b1.times(history.x1)).plus(
            taps.b2.times(history.x2),
        ).minus(taps.a1.times(history.y1)).minus(taps.a2.times(history.y2));
        proof {
            assert(input.take(i + 1).drop_last() =~= input.take(i as int));
        }
        history.x2 = history.x1;
        history.x1 = x;
        history.y2 = history.y1;
        history.y1 = y;
        buffer[i] = y;
        i = i + 1;
    }
    assert(input.take(n as int) =~= input);
    assert(buffer@ =~= start.output(taps, input));
}

/// The angle that a frequency advances by in one sample.
pub open spec fn spec_angle(freq_hz: Single, sample_rate: Single) -> Single {
    Single::from_bits(TWO).times(Single::from_bits(PI)).times(freq_hz).over(sample_rate)
}

/// The angle that a frequency advances by in one sample.
#[verifier::when_used_as_spec(spec_angle)]
pub fn angle(freq_hz: Single, sample_rate: Single) -> (r: Single)
    ensures
        r == spec_angle(freq_hz, sample_rate),
{
    Single::from_bits(TWO).times(Single::from_bits(PI)).times(freq_hz).over(sample_rate)
}

/// The coefficients of a Butterworth high-pass filter, from the sine and the cosine of the
/// cutoff's angle.
pub open spec fn spec_high_pass_taps(sin_w0: Single, cos_w0: Single) -> Taps {
    let alpha = sin_w0.over(Single::from_bits(TWO).times(Single::from_bits(SQRT_HALF)));
    let up = Single::one().plus(cos_w0);
    Taps::normalised(
        up.over(Single::from_bits(TWO)),
        up.negated(),
        up.over(Single::from_bits(TWO)),
        Single::one().plus(alpha),
        Single::from_bits(MINUS_TWO).times(cos_w0),
        Single::one().minus(alpha),
    )
}

/// The coefficients of a Butterworth high-pass filter, from the sine and the cosine of the
/// cutoff's angle.
#[verifier::when_used_as_spec(spec_high_pass_taps)]
pub fn high_pass_taps(sin_w0: Single, cos_w0: Single) -> (r: Taps)
    ensures
        r == spec_high_pass_taps(sin_w0, cos_w0),
{
    // Q = 1/sqrt(2) gives a Butterworth (maximally flat) response.
    let alpha: Single = sin_w0.over(Single::from_bits(TWO).times(Single::from_bits(SQRT_HALF)));
    let up: Single = Single::one().plus(cos_w0);
    Taps::normalised(
        up.over(Single::from_bits(TWO)),
        up.negated(),
        up.over(Single::from_bits(TWO)),
        Single::one().plus(alpha),
        Single::from_bits(MINUS_TWO).times(cos_w0),
        Single::one().minus(alpha),
    )
}

/// Second-order Butterworth high-pass filter.
///
/// Removes low-frequency rumble and handling noise below `cutoff_hz`. Call `prepare()` before
/// use to compute coefficients for the sample rate.
#[derive(Clone, Copy, Debug)]
pub struct HighPass {
    pub cutoff_hz: Single,
    pub taps: Taps,
    pub history: History,
}

/// `t` are the coefficients that the host's sine and cosine give for a cutoff.
pub open spec fn is_high_pass<M: Elementary>(
    m: &M,
    cutoff_hz: Single,
    sample_rate: Single,
    t: Taps,
) -> bool {
    exists|s: Single, c: Single|
        {
            &&& #[trigger] call_ensures(M::sin, (m, angle(cutoff_hz, sample_rate)), s)
            &&& #[trigger] call_ensures(M::cos, (m, angle(cutoff_hz, sample_rate)), c)
            &&& t == high_pass_taps(s, c)
        }
}

impl HighPass {
    /// What the filter makes of a block.
    pub open spec fn output(self, input: Seq<Single>) -> Seq<Single> {
        self.history.output(self.taps, input)
    }

    /// The filter after a block.
    pub open spec fn after(self, input: Seq<Single>) -> HighPass {
        HighPass { history: self.history.after(self.taps, input), ..self }
    }

    /// A filter that passes everything until it is prepared.
    pub fn new(cutoff_hz: Single) -> (r: HighPass)
        ensures
            r == (HighPass { cutoff_hz, taps: Taps::identity(), history: History::silent() }),
    {
        HighPass { cutoff_hz, taps: Taps::identity(), history: History::silent() }
    }

    fn compute_coeffs<M: Elementary>(&mut self, m: &M, sample_rate: Single)
        ensures
            is_high_pass(m, old(self).cutoff_hz, sample_rate, final(self).taps),
            *final(self) == (HighPass { taps: final(self).taps, ..*old(self) }),
    {
        let w0: Single = angle(self.cutoff_hz, sample_rate);
        let s: Single = m.sin(w0);
        let c: Single = m.cos(w0);
        self.taps = high_pass_taps(s, c);
    }
}

impl Processor for HighPass {
    fn prepare<M: Elementary>(&mut self, m: &M, sample_rate: Single, max_block_size: usize)
        ensures
            is_high_pass(m, old(self).cutoff_hz, sample_rate, final(self).taps),
            *final(self) == (HighPass { taps: final(self).taps, ..*old(self) }),
    {
        self.compute_coeffs(m, sample_rate);
    }

    fn process<M: Elementary>(&mut self, m: &M, buffer: &mut [Single])
        ensures
            final(buffer)@ == old(self).output(old(buffer)@),
            *final(self) == old(self).after(old(buffer)@),
    {
        run_section(self.taps, &mut self.history, buffer);
    }

    fn reset(&mut self)
        ensures
            *final(self) == (HighPass { history: History::silent(), ..*old(self) }),
    {
        self.history = History::silent();
    }
}

} // verus!
