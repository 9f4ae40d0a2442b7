//! The parametric equalizer.
use vstd::prelude::*;

use super::biquad::{angle, run_section, History, Taps};
use super::level::{Elementary, Processor};
use crate::numbers::{
    EIGHT_THOUSAND, FORTY, HUNDRED_TWENTY, MINUS_TWO, SEVEN_TENTHS, SHELF_Q, SQRT_TWO,
    THREE_HUNDRED, THREE_THOUSAND, TWO,
};
use crate::single::Single;

verus! {

/// The filter topology for one band.
#[derive(Debug, Clone, Copy, PartialEq, Eq, Structural)]
pub enum BandKind {
    LowShelf,
    Peak,
    HighShelf,
}

/// The coefficients of a peak band: `a` is the square root of the linear gain.
pub open spec fn spec_peak_taps(q: Single, sin_w0: Single, cos_w0: Single, a: Single) -> Taps {
    let alpha = sin_w0.over(Single::from_bits(TWO).times(q));
    Taps::normalised(
        Single::one().plus(alpha.times(a)),
        Single::from_bits(MINUS_TWO).times(cos_w0),
        Single::one().minus(alpha.times(a)),
        Single::one().plus(alpha.over(a)),
        Single::from_bits(MINUS_TWO).times(cos_w0),
        Single::one().minus(alpha.over(a)),
    )
}

/// The coefficients of a peak band: `a` is the square root of the linear gain.
#[verifier::when_used_as_spec(spec_peak_taps)]
pub fn peak_taps(q: Single, sin_w0: Single, cos_w0: Single, a: Single) -> (r: Taps)
    ensures
        r == spec_peak_taps(q, sin_w0, cos_w0, a),
{
    let alpha: Single = sin_w0.over(Single::from_bits(TWO).times(q));
    Taps::normalised(
        Single::one().plus(alpha.times(a)),
        Single::from_bits(MINUS_TWO).times(cos_w0),
        Single::one().minus(alpha.times(a)),
        Single::one().plus(alpha.over(a)),
        Single::from_bits(MINUS_TWO).times(cos_w0),
        Single::one().minus(alpha.over(a)),
    )
}

/// The coefficients of a shelf with slope one: `a` is the square root of the linear gain and
/// `root` the square root of `a`. A high shelf mirrors a low shelf's cosine terms.
pub open spec fn spec_shelf_taps(
    high: bool,
    sin_w0: Single,
    cos_w0: Single,
    a: Single,
    root: Single,
) -> Taps {
    let two = Single::from_bits(TWO);
    let alpha = sin_w0.over(two).times(Single::from_bits(SQRT_TWO));
    let up = a.plus(Single::one());
    let down = a.minus(Single::one());
    let slope = two.times(root).times(alpha);
    let lower = up.minus(down.times(cos_w0));
    let upper = up.plus(down.times(cos_w0));
    let tilt_down = down.minus(up.times(cos_w0));
    let tilt_up = down.plus(up.times(cos_w0));
    if high {
        Taps::normalised(
            a.times(upper.plus(slope)),
            Single::from_bits(MINUS_TWO).times(a).times(tilt_up),
            a.times(upper.minus(slope)),
            lower.plus(slope),
            two.times(tilt_down),
            lower.minus(slope),
        )
    } else {
        Taps::normalised(
            a.times(lower.plus(slope)),
            two.times(a).times(tilt_down),
            a.times(lower.minus(slope)),
            upper.plus(slope),
            Single::from_bits(MINUS_TWO).times(tilt_up),
            upper.minus(slope),
        )
    }
}

/// The coefficients of a shelf with slope one: `a` is the square root of the linear gain and
/// `root` the square root of `a`. A high shelf mirrors a low shelf's cosine terms.
#[verifier::when_used_as_spec(spec_shelf_taps)]
pub fn shelf_taps(
    high: bool,
    sin_w0: Single,
    cos_w0: Single,
    a: Single,
    root: Single,
) -> (r: Taps)
    ensures
        r == spec_shelf_taps(high, sin_w0, cos_w0, a, root),
{
    let two: Single = Single::from_bits(TWO);
    let alpha: Single = sin_w0.over(two).times(Single::from_bits(SQRT_TWO));
    let up: Single = a.plus(Single::one());
    let down: Single = a.minus(Single::one());
    let slope: Single = two.times(root).times(alpha);
    let lower: Single = up.minus(down.times(cos_w0));
    let upper: Single = up.plus(down.times(cos_w0));
    let tilt_down: Single = down.minus(up.times(cos_w0));
    let tilt_up: Single = down.plus(up.times(cos_w0));
    if high {
        Taps::normalised(
            a.times(upper.plus(slope)),
            Single::from_bits(MINUS_TWO).times(a).times(tilt_up),
            a.times(upper.minus(slope)),
            lower.plus(slope),
            two.times(tilt_down),
            lower.minus(slope),
        )
    } else {
        Taps::normalised(
            a.times(lower.plus(slope)),
            two.times(a).times(tilt_down),
            a.times(lower.minus(slope)),
            upper.plus(slope),
            Single::from_bits(MINUS_TWO).times(tilt_up),
            upper.minus(slope),
        )
    }
}

/// `t` are the coefficients that the host's functions give for a band at a sample rate. The
/// gain enters as ten to the power `gain_db / 40`, whose square is the linear gain.
pub open spec fn is_band<M: Elementary>(
    m: &M,
    kind: BandKind,
    freq_hz: Single,
    gain_db: Single,
    q: Single,
    sample_rate: Single,
    t: Taps,
) -> bool {
    exists|s: Single, c: Single, a: Single|
        {
            &&& #[trigger] call_ensures(M::sin, (m, angle(freq_hz, sample_rate)), s)
            &&& #[trigger] call_ensures(M::cos, (m, angle(freq_hz, sample_rate)), c)
            &&& #[trigger] call_ensures(
                M::power_of_ten,
                (m, gain_db.over(Single::from_bits(FORTY))),
                a,
            )
            &&& if kind is Peak {
                t == peak_taps(q, s, c, a)
            } else {
                exists|root: Single|
                    #[trigger] call_ensures(M::sqrt, (m, a), root) && t == shelf_taps(
                        kind is HighShelf,
                        s,
                        c,
                        a,
                        root,
                    )
            }
        }
}

/// One band.
///
/// Change the parameters, then call `compute_coeffs` to make them take effect (or
/// `Eq::prepare`, which does this for all bands).
#[derive(Debug, Clone, Copy)]
pub struct EqBand {
    pub kind: BandKind,
    /// Centre or corner frequency in Hz.
    pub freq_hz: Single,
    /// Gain in dB. Positive = boost, negative = cut.
    pub gain_db: Single,
    /// Q factor. Only used by `Peak` bands; shelves have a fixed slope.
    pub q: Single,
    pub taps: Taps,
    pub history: History,
}

impl EqBand {
    /// The coefficients are those of the parameters at a sample rate.
    pub open spec fn tuned<M: Elementary>(self, m: &M, sample_rate: Single) -> bool {
        is_band(m, self.kind, self.freq_hz, self.gain_db, self.q, sample_rate, self.taps)
    }

    /// What the band makes of a block.
    pub open spec fn output(self, input: Seq<Single>) -> Seq<Single> {
        self.history.output(self.taps, input)
    }

    /// The band after a block.
    pub open spec fn after(self, input: Seq<Single>) -> EqBand {
        EqBand { history: self.history.after(self.taps, input), ..self }
    }

    /// A band that passes everything until its coefficients are computed.
    pub fn new(kind: BandKind, freq_hz: Single, gain_db: Single, q: Single) -> (r: EqBand)
        ensures
            r == (EqBand {
                kind,
                freq_hz,
                gain_db,
                q,
                taps: Taps::identity(),
                history: History::silent(),
            }),
    {
        EqBand { kind, freq_hz, gain_db, q, taps: Taps::identity(), history: History::silent() }
    }

    /// Recomputes the coefficients for `sample_rate`. Must be called after changing any
    /// parameter.
    pub fn compute_coeffs<M: Elementary>(&mut self, m: &M, sample_rate: Single)
        ensures
            final(self).tuned(m, sample_rate),
            *final(self) == (EqBand { taps: final(self).taps, ..*old(self) }),
    {
        let w0: Single = angle(self.freq_hz, sample_rate);
        let cos_w0: Single = m.cos(w0);
        let sin_w0: Single = m.sin(w0);
        // sqrt(10^(dB/20)) = 10^(dB/40): dividing by twenty would apply twice the gain.
        let a: Single = m.power_of_ten(self.gain_db.over(Single::from_bits(FORTY)));
        match self.kind {
            BandKind::LowShelf => {
                let root: Single = m.sqrt(a);
                self.taps = shelf_taps(false, sin_w0, cos_w0, a, root);
            },
            BandKind::Peak => {
                self.taps = peak_taps(self.q, sin_w0, cos_w0, a);
            },
            BandKind::HighShelf => {
                let root: Single = m.sqrt(a);
                self.taps = shelf_taps(true, sin_w0, cos_w0, a, root);
            },
        }
    }

    /// Runs a block through the band.
    pub fn process_band(&mut self, buffer: &mut [Single])
        ensures
            final(buffer)@ == old(self).output(old(buffer)@),
            *final(self) == old(self).after(old(buffer)@),
    {
        run_section(self.taps, &mut self.history, buffer);
    }

    /// Forgets the past.
    pub fn reset_band(&mut self)
        ensures
            *final(self) == (EqBand { history: History::silent(), ..*old(self) }),
    {
        self.history = History::silent();
    }
}

/// Four-band parametric equalizer.
///
/// Fixed band layout:
///   `bands[0]`: low shelf  (default 120 Hz)
///   `bands[1]`: peak       (default 300 Hz,  Q 0.7)
///   `bands[2]`: peak       (default 3000 Hz, Q 0.7)
///   `bands[3]`: high shelf (default 8000 Hz)
///
/// All bands default to 0 dB (transparent). Call `prepare()` before use.
#[derive(Debug, Clone)]
pub struct Eq {
    pub bands: [EqBand; 4],
}

/// What the first `n` bands make of a block.
pub open spec fn bands_output(bands: Seq<EqBand>, input: Seq<Single>, n: nat) -> Seq<Single>
    decreases n,
{
    if n == 0 {
        input
    } else {
        bands[n - 1].output(bands_output(bands, input, (n - 1) as nat))
    }
}

/// A fresh band.
pub open spec fn fresh_band(kind: BandKind, freq_hz: u32, q: u32) -> EqBand {
    EqBand {
        kind,
        freq_hz: Single::from_bits(freq_hz),
        gain_db: Single::zero(),
        q: Single::from_bits(q),
        taps: Taps::identity(),
        history: History::silent(),
    }
}

impl Eq {
    /// What the equalizer makes of a block.
    pub open spec fn output(self, input: Seq<Single>) -> Seq<Single> {
        bands_output(self.bands@, input, 4)
    }

    /// `later` is the equalizer after a block.
    pub open spec fn moves_to(self, input: Seq<Single>, later: Eq) -> bool {
        forall|i: int|
            0 <= i < 4 ==> #[trigger] later.bands@[i] == self.bands@[i].after(
                bands_output(self.bands@, input, i as nat),
            )
    }

    /// An equalizer with the default bands.
    pub fn new() -> (r: Eq)
        ensures
            r.bands@ == seq![
                fresh_band(BandKind::LowShelf, HUNDRED_TWENTY, SHELF_Q),
                fresh_band(BandKind::Peak, THREE_HUNDRED, SEVEN_TENTHS),
                fresh_band(BandKind::Peak, THREE_THOUSAND, SEVEN_TENTHS),
                fresh_band(BandKind::HighShelf, EIGHT_THOUSAND, SHELF_Q),
            ],
    {
        let zero: Single = Single::zero();
        let shelf_q: Single = Single::from_bits(SHELF_Q);
        let peak_q: Single = Single::from_bits(SEVEN_TENTHS);
        Eq {
            bands: [
                EqBand::new(BandKind::LowShelf, Single::from_bits(HUNDRED_TWENTY), zero, shelf_q),
                EqBand::new(BandKind::Peak, Single::from_bits(THREE_HUNDRED), zero, peak_q),
                EqBand::new(BandKind::Peak, Single::from_bits(THREE_THOUSAND), zero, peak_q),
                EqBand::new(BandKind::HighShelf, Single::from_bits(EIGHT_THOUSAND), zero, shelf_q),
            ],
        }
    }
}

impl Default for Eq {
    fn default() -> (r: Eq)
        ensures
            r.bands@ == seq![
                fresh_band(BandKind::LowShelf, HUNDRED_TWENTY, SHELF_Q),
                fresh_band(BandKind::Peak, THREE_HUNDRED, SEVEN_TENTHS),
                fresh_band(BandKind::Peak, THREE_THOUSAND, SEVEN_TENTHS),
                fresh_band(BandKind::HighShelf, EIGHT_THOUSAND, SHELF_Q),
            ],
    {
        Eq::new()
    }
}

impl Processor for Eq {
    fn prepare<M: Elementary>(&mut self, m: &M, sample_rate: Single, max_block_size: usize)
        ensures
            forall|i: int|
                0 <= i < 4 ==> (#[trigger] final(self).bands@[i]).tuned(m, sample_rate)
                    && final(self).bands@[i] == (EqBand {
                    taps: final(self).bands@[i].taps,
                    ..old(self).bands@[i]
                }),
    {
        let ghost start = self.bands@;
        let mut i: usize = 0;
        while i < 4
            invariant
                i <= 4,
                start.len() == 4,
                forall|j: int| i <= j < 4 ==> self.bands@[j] == start[j],
                forall|j: int|
                    0 <= j < i ==> (#[trigger] self.bands@[j]).tuned(m, sample_rate)
                        && self.bands@[j] == (EqBand { taps: self.bands@[j].taps, ..start[j] }),
            decreases 4 - i,
        {
            self.bands[i].compute_coeffs(m, sample_rate);
            i = i + 1;
        }
    }

    fn process<M: Elementary>(&mut self, m: &M, buffer: &mut [Single])
        ensures
            final(buffer)@ == old(self).output(old(buffer)@),
            old(self).moves_to(old(buffer)@, *final(self)),
    {
        let ghost start = self.bands@;
        let ghost input = buffer@;
        let mut i: usize = 0;
        while i < 4
            invariant
                i <= 4,
                start.len() == 4,
                buffer@ == bands_output(start, input, i as nat),
                forall|j: int| i <= j < 4 ==> self.bands@[j] == start[j],
                forall|j: int|
                    0 <= j < i ==> #[trigger] self.bands@[j] == start[j].after(
                        bands_output(start, input, j as nat),
                    ),
            decreases 4 - i,
        {
            self.bands[i].process_band(buffer);
            i = i + 1;
        }
    }

    fn reset(&mut self)
        ensures
            forall|i: int|
                0 <= i < 4 ==> #[trigger] final(self).bands@[i] == (EqBand {
                    history: History::silent(),
                    ..old(self).bands@[i]
                }),
    {
        let ghost start = self.bands@;
        let mut i: usize = 0;
        while i < 4
            invariant
                i <= 4,
                start.len() == 4,
                forall|j: int| i <= j < 4 ==> self.bands@[j] == start[j],
                forall|j: int|
                    0 <= j < i ==> #[trigger] self.bands@[j] == (EqBand {
                        history: History::silent(),
                        ..start[j]
                    }),
            decreases 4 - i,
        {
            self.bands[i].reset_band();
            i = i + 1;
        }
    }
}

} // verus!
