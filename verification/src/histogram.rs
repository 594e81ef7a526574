//! Counts loudness measurements in bins of one hundredth of a decibel and
//! reads a percentile of their distribution.

use vstd::prelude::*;

verus! {

/// The number of bins: loudness from 0.00 dB up to 119.99 dB.
pub const SLOTS: usize = 12000;

/// The loudness measured over one window.
#[derive(Clone, Copy, Debug, PartialEq, Eq)]
pub enum Loudness {
    /// The window's energy is exactly zero, so that it has no logarithm.
    Silence,
    /// The loudness in hundredths of a decibel.
    CentiDecibels(i64),
}

/// The bin that counts a measurement: its value in hundredths of a decibel,
/// brought to the nearest bin where it lies outside the range. Silence
/// belongs to the floor bin.
pub open spec fn bin_of(loudness: Loudness) -> int {
    match loudness {
        Loudness::Silence => 0,
        Loudness::CentiDecibels(value) => if value < 0 {
            0
        } else if value >= SLOTS {
            SLOTS - 1
        } else {
            value as int
        },
    }
}

/// The number of windows counted in the bins from `from` upwards.
pub open spec fn windows_from(counts: Seq<nat>, from: int) -> nat
    decreases counts.len() - from,
{
    if 0 <= from < counts.len() {
        counts[from] + windows_from(counts, from + 1)
    } else {
        0
    }
}

/// The number of windows counted in all bins.
pub open spec fn total_of(counts: Seq<nat>) -> nat {
    windows_from(counts, 0)
}

/// The counts after one more measurement.
pub open spec fn recorded(counts: Seq<nat>, loudness: Loudness) -> Seq<nat> {
    counts.update(bin_of(loudness), counts[bin_of(loudness)] + 1)
}

/// The counts after the measurements of `levels`, taken in order.
pub open spec fn recorded_all(counts: Seq<nat>, levels: Seq<Loudness>) -> Seq<nat>
    decreases levels.len(),
{
    if levels.len() == 0 {
        counts
    } else {
        recorded(recorded_all(counts, levels.drop_last()), levels.last())
    }
}

/// The share of all windows, in percent, that lies above a percentile.
pub open spec fn share_above(percent: u8) -> int {
    if percent >= 100 {
        0
    } else {
        100 - percent
    }
}

/// Whether the windows from `bin` upwards make up at least the share that
/// lies above the percentile.
pub open spec fn reaches(counts: Seq<nat>, percent: u8, bin: int) -> bool {
    windows_from(counts, bin) * 100 >= total_of(counts) * share_above(percent)
}

/// Whether `bin` is the percentile of the distribution: the loudest bin
/// from which upwards the windows reach the share above the percentile.
/// Where nothing was counted it is the floor bin.
pub open spec fn is_percentile_bin(counts: Seq<nat>, percent: u8, bin: int) -> bool {
    &&& 0 <= bin < counts.len()
    &&& if total_of(counts) == 0 {
        bin == 0
    } else {
        &&& reaches(counts, percent, bin)
        &&& forall|above: int| bin < above < counts.len() ==> !reaches(counts, percent, above)
    }
}

/// The percentile of the distribution as a bin.
pub open spec fn percentile_bin_of(counts: Seq<nat>, percent: u8) -> int {
    choose|bin: int| is_percentile_bin(counts, percent, bin)
}

/// The gain that brings the percentile to the reference loudness, both in
/// hundredths of a decibel.
pub open spec fn gain_of(counts: Seq<nat>, reference: i32, percent: u8) -> int {
    reference - percentile_bin_of(counts, percent)
}

/// Counts of the measurements taken so far, one counter for each bin.
pub struct Histogram {
    counts: Vec<u64>,
    total: u64,
}

impl View for Histogram {
    type V = Seq<nat>;

    /// The number of windows counted in each bin.
    closed spec fn view(&self) -> Seq<nat> {
        Seq::new(self.counts@.len(), |i: int| self.counts@[i] as nat)
    }
}

impl Histogram {
    /// There is one counter for each bin, and the running total is the sum
    /// of the counters.
    pub closed spec fn wf(&self) -> bool {
        &&& self.counts@.len() == SLOTS
        &&& self.total == total_of(self@)
    }

    /// A well-formed histogram has one count for each bin.
    pub proof fn lemma_wf_len(&self)
        requires
            self.wf(),
        ensures
            self@.len() == SLOTS,
    {
    }

    /// A histogram in which nothing is counted.
    pub fn new() -> (histogram: Histogram)
        ensures
            histogram.wf(),
            histogram@ == Seq::new(SLOTS as nat, |i: int| 0nat),
    {
        let counts: Vec<u64> = vec![0u64; SLOTS];
        let histogram = Histogram { counts, total: 0 };
        proof {
            assert(histogram@ =~= Seq::new(SLOTS as nat, |i: int| 0nat));
            lemma_total_of_empty(histogram@);
        }
        histogram
    }

    /// The number of windows counted so far.
    pub fn total(&self) -> (total: u64)
        requires
            self.wf(),
        ensures
            total == total_of(self@),
    {
        self.total
    }

    /// The number of windows counted in `bin`.
    pub fn count(&self, bin: usize) -> (count: u64)
        requires
            self.wf(),
            bin < SLOTS,
        ensures
            count == self@[bin as int],
    {
        self.counts[bin]
    }

    /// Counts one measurement in its bin.
    pub fn record(&mut self, loudness: Loudness)
        requires
            old(self).wf(),
            total_of(old(self)@) < u64::MAX,
        ensures
            final(self).wf(),
            final(self)@ == recorded(old(self)@, loudness),
            total_of(final(self)@) == total_of(old(self)@) + 1,
            forall|i: int| 0 <= i < SLOTS ==> final(self)@[i] >= old(self)@[i],
    {
        let bin = bin(loudness);
        proof {
            lemma_count_within_total(self@, bin as int);
            lemma_total_of_recorded(self@, loudness);
        }
        let count = self.counts[bin];
        self.counts[bin] = count + 1;
        self.total = self.total + 1;
        proof {
            assert(self@ =~= recorded(old(self)@, loudness));
        }
    }

    /// Counts the measurements of `levels`, in order.
    pub fn record_all(&mut self, levels: &[Loudness])
        requires
            old(self).wf(),
            total_of(old(self)@) + levels@.len() <= u64::MAX,
        ensures
            final(self).wf(),
            final(self)@ == recorded_all(old(self)@, levels@),
            total_of(final(self)@) == total_of(old(self)@) + levels@.len(),
            forall|i: int| 0 <= i < SLOTS ==> final(self)@[i] >= old(self)@[i],
    {
        let mut i: usize = 0;
        while i < levels.len()
            invariant
                i <= levels.len(),
                self.wf(),
                self@ == recorded_all(old(self)@, levels@.take(i as int)),
                total_of(self@) == total_of(old(self)@) + i,
                forall|i: int| 0 <= i < SLOTS ==> self@[i] >= old(self)@[i],
                total_of(old(self)@) + levels@.len() <= u64::MAX,
            decreases levels.len() - i,
        {
            proof {
                let next = levels@.take(i + 1);
                assert(next.drop_last() =~= levels@.take(i as int));
                assert(next.last() == levels@[i as int]);
            }
            self.record(levels[i]);
            i += 1;
        }
        proof {
            assert(levels@.take(i as int) =~= levels@);
        }
    }

    /// The percentile of the measured loudness, as a bin: the loudest bin
    /// from which upwards the windows make up at least the share of all
    /// windows that lies above the percentile. For the 95th percentile that
    /// share is a twentieth: the bins are read from the loudest downwards
    /// until a twentieth of all windows is passed.
    pub fn percentile_bin(&self, percent: u8) -> (bin: usize)
        requires
            self.wf(),
        ensures
            is_percentile_bin(self@, percent, bin as int),
            bin == percentile_bin_of(self@, percent),
    {
        if self.total == 0 {
            proof {
                lemma_percentile_is_unique(self@, percent, 0, percentile_bin_of(self@, percent));
            }
            return 0;
        }
        let share: u128 = if percent >= 100 {
            0
        } else {
            (100 - percent) as u128
        };
        assert(self.total * share <= u64::MAX * 100) by (nonlinear_arith)
            requires
                0 <= self.total <= u64::MAX,
                0 <= share <= 100,
        ;
        let threshold: u128 = (self.total as u128) * share;
        let mut bin: usize = SLOTS - 1;
        let mut loud: u64 = self.counts[bin];
        proof {
            assert(windows_from(self@, SLOTS as int) == 0);
            lemma_windows_from_shrinks(self@, 0, bin as int);
        }
        while bin > 0 && (loud as u128) * 100 < threshold
            invariant
                self.wf(),
                bin < SLOTS,
                share == share_above(percent),
                threshold == total_of(self@) * share_above(percent),
                loud == windows_from(self@, bin as int),
                forall|above: int| bin < above < SLOTS ==> !reaches(self@, percent, above),
            decreases bin,
        {
            bin -= 1;
            proof {
                lemma_windows_from_shrinks(self@, 0, bin as int);
            }
            loud += self.counts[bin];
        }
        proof {
            if bin == 0 {
                assert(total_of(self@) * 100 >= total_of(self@) * share_above(percent))
                    by (nonlinear_arith)
                    requires
                        share_above(percent) <= 100,
                ;
            }
            lemma_percentile_is_unique(self@, percent, bin as int, percentile_bin_of(self@, percent));
        }
        bin
    }

    /// The gain that brings the percentile of the measured loudness to
    /// `reference`, both in hundredths of a decibel. Where nothing was
    /// measured the percentile is the floor bin, so that the gain is the
    /// greatest that any measurement can give.
    pub fn percentile_gain(&self, reference: i32, percent: u8) -> (gain: i64)
        requires
            self.wf(),
        ensures
            gain == gain_of(self@, reference, percent),
            reference - SLOTS < gain <= reference,
            total_of(self@) == 0 ==> gain == reference,
    {
        let bin = self.percentile_bin(percent);
        (reference as i64) - (bin as i64)
    }
}

/// The bin that counts a measurement.
pub fn bin(loudness: Loudness) -> (bin: usize)
    ensures
        bin == bin_of(loudness),
        bin < SLOTS,
{
    match loudness {
        Loudness::Silence => 0,
        Loudness::CentiDecibels(value) => if value < 0 {
            0
        } else if value >= SLOTS as i64 {
            SLOTS - 1
        } else {
            value as usize
        },
    }
}

/// Bins in which nothing is counted hold no windows.
pub proof fn lemma_total_of_empty(counts: Seq<nat>)
    requires
        forall|i: int| 0 <= i < counts.len() ==> counts[i] == 0,
    ensures
        forall|from: int| windows_from(counts, from) == 0,
        total_of(counts) == 0,
{
    assert forall|from: int| windows_from(counts, from) == 0 by {
        lemma_windows_from_empty(counts, from);
    }
}

proof fn lemma_windows_from_empty(counts: Seq<nat>, from: int)
    requires
        forall|i: int| 0 <= i < counts.len() ==> counts[i] == 0,
    ensures
        windows_from(counts, from) == 0,
    decreases counts.len() - from,
{
    if 0 <= from < counts.len() {
        lemma_windows_from_empty(counts, from + 1);
    }
}

/// Fewer bins hold fewer windows: the windows from a bin upwards are at
/// most the windows from any lower bin upwards.
pub proof fn lemma_windows_from_shrinks(counts: Seq<nat>, low: int, high: int)
    requires
        0 <= low <= high,
    ensures
        windows_from(counts, high) <= windows_from(counts, low),
    decreases high - low,
{
    if low < high {
        lemma_windows_from_shrinks(counts, low + 1, high);
    }
}

/// No bin counts more windows than the histogram holds in all.
pub proof fn lemma_count_within_total(counts: Seq<nat>, bin: int)
    requires
        0 <= bin < counts.len(),
    ensures
        counts[bin] <= total_of(counts),
{
    lemma_windows_from_shrinks(counts, 0, bin);
}

/// One more window in `bin` is one more window from every bin up to `bin`
/// upwards, and none from the bins above it.
pub proof fn lemma_windows_from_raised(counts: Seq<nat>, bin: int, from: int)
    requires
        0 <= bin < counts.len(),
        0 <= from,
    ensures
        windows_from(counts.update(bin, counts[bin] + 1), from) == windows_from(counts, from) + (
        if from <= bin {
            1nat
        } else {
            0nat
        }),
    decreases counts.len() - from,
{
    if from < counts.len() {
        lemma_windows_from_raised(counts, bin, from + 1);
    }
}

/// Each measurement is counted once: it raises the total by one and lowers
/// no count.
pub proof fn lemma_total_of_recorded(counts: Seq<nat>, loudness: Loudness)
    requires
        counts.len() == SLOTS,
    ensures
        total_of(recorded(counts, loudness)) == total_of(counts) + 1,
        recorded(counts, loudness).len() == counts.len(),
        forall|i: int| 0 <= i < counts.len() ==> recorded(counts, loudness)[i] >= counts[i],
{
    lemma_windows_from_raised(counts, bin_of(loudness), 0);
}

/// The total after a run of measurements is the total before it plus the
/// number of measurements, and no count is lowered.
pub proof fn lemma_total_of_recorded_all(counts: Seq<nat>, levels: Seq<Loudness>)
    requires
        counts.len() == SLOTS,
    ensures
        total_of(recorded_all(counts, levels)) == total_of(counts) + levels.len(),
        recorded_all(counts, levels).len() == counts.len(),
        forall|i: int| 0 <= i < counts.len() ==> recorded_all(counts, levels)[i] >= counts[i],
    decreases levels.len(),
{
    if levels.len() > 0 {
        lemma_total_of_recorded_all(counts, levels.drop_last());
        lemma_total_of_recorded(recorded_all(counts, levels.drop_last()), levels.last());
    }
}

/// Whether every window is counted in the floor bin.
pub open spec fn only_floor(counts: Seq<nat>) -> bool {
    forall|i: int| 1 <= i < counts.len() ==> counts[i] == 0
}

/// Whether a measurement belongs to the floor bin: silence, or a loudness
/// of less than one hundredth of a decibel.
pub open spec fn is_floor(loudness: Loudness) -> bool {
    bin_of(loudness) == 0
}

/// Where every window is counted in the floor bin, and where nothing is
/// counted, the percentile is the floor bin and the gain is the reference.
pub proof fn lemma_percentile_of_floor(counts: Seq<nat>, reference: i32, percent: u8)
    requires
        counts.len() == SLOTS,
        only_floor(counts),
        percent < 100,
    ensures
        percentile_bin_of(counts, percent) == 0,
        gain_of(counts, reference, percent) == reference,
{
    if total_of(counts) > 0 {
        assert forall|above: int| 0 < above < counts.len() implies !reaches(
            counts,
            percent,
            above,
        ) by {
            lemma_windows_from_floor(counts, above);
            assert(total_of(counts) * share_above(percent) > 0) by (nonlinear_arith)
                requires
                    total_of(counts) > 0,
                    share_above(percent) > 0,
            ;
        }
        assert(total_of(counts) * 100 >= total_of(counts) * share_above(percent))
            by (nonlinear_arith)
            requires
                share_above(percent) <= 100,
        ;
    }
    lemma_percentile_is_unique(counts, percent, 0, 0);
}

proof fn lemma_windows_from_floor(counts: Seq<nat>, from: int)
    requires
        only_floor(counts),
        1 <= from,
    ensures
        windows_from(counts, from) == 0,
    decreases counts.len() - from,
{
    if from < counts.len() {
        lemma_windows_from_floor(counts, from + 1);
    }
}

/// Measurements of the floor bin leave every other bin as it is.
pub proof fn lemma_recorded_floor(counts: Seq<nat>, levels: Seq<Loudness>)
    requires
        counts.len() == SLOTS,
        only_floor(counts),
        forall|i: int| 0 <= i < levels.len() ==> is_floor(#[trigger] levels[i]),
    ensures
        recorded_all(counts, levels).len() == SLOTS,
        only_floor(recorded_all(counts, levels)),
    decreases levels.len(),
{
    if levels.len() > 0 {
        let front = levels.drop_last();
        assert forall|i: int| 0 <= i < front.len() implies is_floor(#[trigger] front[i]) by {
            assert(front[i] == levels[i]);
        }
        lemma_recorded_floor(counts, front);
        assert(is_floor(levels[levels.len() - 1]));
    }
}

/// What the percentile says of the distribution: at least `percent` in a
/// hundred of all windows are no louder than the percentile, and at most
/// `percent` in a hundred are quieter than it.
pub proof fn lemma_percentile_divides(counts: Seq<nat>, percent: u8, bin: int)
    requires
        is_percentile_bin(counts, percent, bin),
        percent <= 100,
    ensures
        (total_of(counts) - windows_from(counts, bin + 1)) * 100 >= total_of(counts) * percent,
        (total_of(counts) - windows_from(counts, bin)) * 100 <= total_of(counts) * percent,
{
    let total = total_of(counts) as int;
    let from = windows_from(counts, bin) as int;
    let above = windows_from(counts, bin + 1) as int;
    lemma_windows_from_shrinks(counts, 0, bin);
    lemma_windows_from_shrinks(counts, 0, bin + 1);
    if total > 0 {
        assert((total - from) * 100 <= total * percent) by (nonlinear_arith)
            requires
                from * 100 >= total * (100 - percent),
        ;
        if bin + 1 < counts.len() {
            assert(!reaches(counts, percent, bin + 1));
            assert((total - above) * 100 >= total * percent) by (nonlinear_arith)
                requires
                    above * 100 < total * (100 - percent),
            ;
        } else {
            assert((total - above) * 100 >= total * percent) by (nonlinear_arith)
                requires
                    above == 0,
                    total >= 0,
                    0 <= percent <= 100,
            ;
        }
    } else {
        assert(from == 0 && above == 0);
    }
}

/// A distribution has one percentile.
pub proof fn lemma_percentile_is_unique(counts: Seq<nat>, percent: u8, bin: int, other: int)
    requires
        is_percentile_bin(counts, percent, bin),
    ensures
        percentile_bin_of(counts, percent) == bin,
        is_percentile_bin(counts, percent, other) ==> other == bin,
{
    let chosen = percentile_bin_of(counts, percent);
    assert(is_percentile_bin(counts, percent, chosen));
}

} // verus!
