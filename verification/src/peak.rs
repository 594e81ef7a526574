//! Running maximum of absolute sample amplitude over binary32 bit patterns.

use vstd::prelude::*;

verus! {

/// Clears the sign bit of a binary32 bit pattern.
pub const MAGNITUDE_MASK: u32 = 0x7FFF_FFFF;

/// Bit pattern of positive infinity. Every larger magnitude encodes a NaN.
pub const INFINITY_BITS: u32 = 0x7F80_0000;

/// Bit pattern of the amplitude 1.0.
pub const FULL_SCALE_BITS: u32 = 0x3F80_0000;

/// The bit pattern of a sample's absolute value.
pub open spec fn magnitude(sample: u32) -> u32 {
    sample & MAGNITUDE_MASK
}

/// Whether the bit pattern encodes a NaN.
pub open spec fn is_nan(sample: u32) -> bool {
    magnitude(sample) > INFINITY_BITS
}

/// What a sample contributes to the peak: its absolute value, or nothing
/// (zero) when it is a NaN, which compares greater than no amplitude.
///
/// Among non-negative, non-NaN binary32 values the numeric order and the
/// order of the bit patterns read as unsigned integers agree, so amplitudes
/// are compared as integers.
pub open spec fn amplitude(sample: u32) -> u32 {
    if is_nan(sample) {
        0
    } else {
        magnitude(sample)
    }
}

/// The larger of two amplitudes.
pub open spec fn louder(a: u32, b: u32) -> u32 {
    if a >= b {
        a
    } else {
        b
    }
}

/// The greatest amplitude among `samples`; zero for the empty sequence.
pub open spec fn peak_of(samples: Seq<u32>) -> u32
    decreases samples.len(),
{
    if samples.len() == 0 {
        0
    } else {
        louder(peak_of(samples.drop_last()), amplitude(samples.last()))
    }
}

/// A sequence of `count` samples that are all positive zero.
pub open spec fn silence(count: nat) -> Seq<u32> {
    Seq::new(count, |i: int| 0u32)
}

/// Both zeros have amplitude zero, and full scale of either sign has the
/// amplitude 1.0.
pub proof fn lemma_amplitude_values()
    ensures
        amplitude(0) == 0,
        amplitude(0x8000_0000) == 0,
        amplitude(FULL_SCALE_BITS) == FULL_SCALE_BITS,
        amplitude(0xBF80_0000) == FULL_SCALE_BITS,
{
    assert(0u32 & 0x7FFF_FFFF == 0) by (bit_vector);
    assert(0x8000_0000u32 & 0x7FFF_FFFF == 0) by (bit_vector);
    assert(0x3F80_0000u32 & 0x7FFF_FFFF == 0x3F80_0000) by (bit_vector);
    assert(0xBF80_0000u32 & 0x7FFF_FFFF == 0x3F80_0000) by (bit_vector);
}

/// The peak bounds every amplitude of the sequence, and is either zero or
/// the amplitude of one of its samples. It is never a NaN.
pub proof fn lemma_peak_is_maximum(samples: Seq<u32>)
    ensures
        forall|i: int| 0 <= i < samples.len() ==> amplitude(#[trigger] samples[i]) <= peak_of(samples),
        peak_of(samples) == 0 || exists|i: int|
            0 <= i < samples.len() && amplitude(#[trigger] samples[i]) == peak_of(samples),
        peak_of(samples) <= INFINITY_BITS,
    decreases samples.len(),
{
    if samples.len() > 0 {
        let front = samples.drop_last();
        lemma_peak_is_maximum(front);
        assert forall|i: int| 0 <= i < samples.len() implies amplitude(#[trigger] samples[i])
            <= peak_of(samples) by {
            if i < front.len() {
                assert(samples[i] == front[i]);
            }
        }
        if peak_of(samples) != 0 {
            if peak_of(samples) == amplitude(samples.last()) {
                assert(amplitude(samples[samples.len() - 1]) == peak_of(samples));
            } else {
                let i = choose|i: int|
                    0 <= i < front.len() && amplitude(#[trigger] front[i]) == peak_of(front);
                assert(amplitude(samples[i]) == peak_of(samples));
            }
        }
    }
}

/// The peak of a concatenation is the louder of the two peaks.
pub proof fn lemma_peak_of_concat(first: Seq<u32>, second: Seq<u32>)
    ensures
        peak_of(first + second) == louder(peak_of(first), peak_of(second)),
    decreases second.len(),
{
    if second.len() == 0 {
        assert(first + second =~= first);
    } else {
        lemma_peak_of_concat(first, second.drop_last());
        assert((first + second).drop_last() =~= first + second.drop_last());
        assert((first + second).last() == second.last());
    }
}

/// The peak never decreases: the peak of a stream is at most the peak of
/// any extension of it.
pub proof fn lemma_peak_monotonic(stream: Seq<u32>, extension: Seq<u32>)
    ensures
        peak_of(stream) <= peak_of(stream + extension),
{
    lemma_peak_of_concat(stream, extension);
}

/// A stream in which every sample is a zero of either sign has peak zero.
pub proof fn lemma_peak_of_zeros(samples: Seq<u32>)
    requires
        forall|i: int| 0 <= i < samples.len() ==> amplitude(#[trigger] samples[i]) == 0,
    ensures
        peak_of(samples) == 0,
{
    lemma_peak_is_maximum(samples);
}

/// Padding a stream with zeros leaves its peak as it is.
pub proof fn lemma_peak_of_padded(samples: Seq<u32>, count: nat)
    ensures
        peak_of(samples + silence(count)) == peak_of(samples),
{
    lemma_amplitude_values();
    lemma_peak_of_zeros(silence(count));
    lemma_peak_of_concat(samples, silence(count));
}

/// A stream whose samples are all zero but one has the amplitude of that
/// one sample as its peak.
pub proof fn lemma_peak_of_impulse(samples: Seq<u32>, at: int)
    requires
        0 <= at < samples.len(),
        forall|i: int| 0 <= i < samples.len() && i != at ==> amplitude(#[trigger] samples[i]) == 0,
    ensures
        peak_of(samples) == amplitude(samples[at]),
{
    lemma_peak_is_maximum(samples);
}

/// Tracks the greatest absolute amplitude seen so far.
pub struct PeakTracker {
    peak: u32,
}

impl View for PeakTracker {
    type V = u32;

    closed spec fn view(&self) -> u32 {
        self.peak
    }
}

impl PeakTracker {
    /// A tracked peak is a finite or infinite amplitude, never a NaN and never negative.
    pub open spec fn wf(&self) -> bool {
        self@ <= INFINITY_BITS
    }

    /// A tracker that has seen no sample.
    pub fn new() -> (tracker: PeakTracker)
        ensures
            tracker.wf(),
            tracker@ == 0,
    {
        PeakTracker { peak: 0 }
    }

    /// The peak as a binary32 bit pattern.
    pub fn value(&self) -> (bits: u32)
        ensures
            bits == self@,
    {
        self.peak
    }

    /// Raises the peak to the amplitude of `sample` where that is greater.
    pub fn observe(&mut self, sample: u32)
        requires
            old(self).wf(),
        ensures
            final(self).wf(),
            final(self)@ == louder(old(self)@, amplitude(sample)),
    {
        let bits: u32 = sample & MAGNITUDE_MASK;
        if bits <= INFINITY_BITS && bits > self.peak {
            self.peak = bits;
        }
    }

    /// Observes every sample of `samples`.
    pub fn observe_all(&mut self, samples: &[u32])
        requires
            old(self).wf(),
        ensures
            final(self).wf(),
            final(self)@ == louder(old(self)@, peak_of(samples@)),
    {
        let mut i: usize = 0;
        while i < samples.len()
            invariant
                i <= samples.len(),
                self.wf(),
                self@ == louder(old(self)@, peak_of(samples@.take(i as int))),
            decreases samples.len() - i,
        {
            proof {
                let next = samples@.take(i + 1);
                assert(next.drop_last() =~= samples@.take(i as int));
                assert(next.last() == samples@[i as int]);
            }
            self.observe(samples[i]);
            i += 1;
        }
        proof {
            assert(samples@.take(i as int) =~= samples@);
        }
    }
}

} // verus!
