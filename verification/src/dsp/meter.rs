//! The peak meter.
use vstd::prelude::*;

use super::level::{is_level, linear_to_db, Elementary, Processor};
use crate::single::Single;

verus! {

/// Tracks the absolute peak level seen since the last call to `reset()`.
#[derive(Clone, Copy, Debug)]
pub struct PeakMeter {
    pub peak: Single,
}

/// The larger of a peak and the next sample's amplitude; what is not a number changes nothing.
pub open spec fn raised(peak: Single, sample: Single) -> Single {
    if sample.abs().gt(peak) {
        sample.abs()
    } else {
        peak
    }
}

/// The peak after a block.
pub open spec fn peak_after(peak: Single, input: Seq<Single>) -> Single
    decreases input.len(),
{
    if input.len() == 0 {
        peak
    } else {
        raised(peak_after(peak, input.drop_last()), input.last())
    }
}

impl PeakMeter {
    /// A meter that has seen nothing.
    pub fn new() -> (r: PeakMeter)
        ensures
            r.peak == Single::zero(),
    {
        PeakMeter { peak: Single::zero() }
    }

    /// The peak in dB.
    pub fn peak_db<M: Elementary>(&self, m: &M) -> (r: Single)
        ensures
            is_level(m, self.peak, r),
    {
        linear_to_db(m, self.peak)
    }

    /// The peak as a linear amplitude.
    pub fn peak_linear(&self) -> (r: Single)
        ensures
            r == self.peak,
    {
        self.peak
    }
}

impl Default for PeakMeter {
    fn default() -> (r: PeakMeter)
        ensures
            r.peak == Single::zero(),
    {
        PeakMeter::new()
    }
}

impl Processor for PeakMeter {
    fn prepare<M: Elementary>(&mut self, m: &M, sample_rate: Single, max_block_size: usize)
        ensures
            *final(self) == *old(self),
    {
    }

    fn process<M: Elementary>(&mut self, m: &M, buffer: &mut [Single])
        ensures
            final(buffer)@ == old(buffer)@,
            final(self).peak == peak_after(old(self).peak, old(buffer)@),
    {
        let ghost start = self.peak;
        let ghost input = buffer@;
        let n: usize = buffer.len();
        let mut i: usize = 0;
        assert(input.take(0) =~= Seq::<Single>::empty());
        while i < n
            invariant
                n == input.len(),
                buffer@ == input,
                i <= n,
                self.peak == peak_after(start, input.take(i as int)),
            decreases n - i,
        {
            let abs: Single = buffer[i].abs();
            proof {
                assert(input.take(i + 1).drop_last() =~= input.take(i as int));
            }
            if abs.gt(self.peak) {
                self.peak = abs;
            }
            i = i + 1;
        }
        assert(input.take(n as int) =~= input);
    }

    fn reset(&mut self)
        ensures
            final(self).peak == Single::zero(),
    {
        self.peak = Single::zero();
    }
}

} // verus!
