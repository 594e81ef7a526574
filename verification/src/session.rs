//! The analysis session: it takes the samples of a stereo stream, holds each
//! frame that is due for measurement until its loudness is handed in, and
//! ends with the gain and the peak of the stream.

use vstd::prelude::*;
use vstd::slice::slice_to_vec;
use crate::assembler::contents;
use crate::assembler::joined;
use crate::assembler::lemma_contents_concat;
use crate::assembler::FrameAssembler;
use crate::histogram::gain_of;
use crate::histogram::lemma_total_of_empty;
use crate::histogram::lemma_total_of_recorded_all;
use crate::histogram::recorded_all;
use crate::histogram::total_of;
use crate::histogram::Histogram;
use crate::histogram::Loudness;
use crate::model::lemma_accept;
use crate::model::lemma_short_chunk;
use crate::model::lemma_submit;
use crate::model::Session;
use crate::peak::lemma_peak_of_concat;
use crate::peak::louder;
use crate::peak::peak_of;
use crate::peak::PeakTracker;
use crate::rates::is_supported;
use crate::rates::lookup;
use crate::rates::profile_of;
use crate::rates::SampleRateProfile;

verus! {

/// The loudness to which the gain brings a stream, in hundredths of a decibel.
pub const REFERENCE_LOUDNESS: i32 = 6454;

/// The percentile of the measured loudness that stands for the stream.
pub const PERCENTILE: u8 = 95;

/// A loudness analysis of one stereo stream.
pub struct ReplayGain {
    profile: SampleRateProfile,
    assembler: FrameAssembler,
    peak: PeakTracker,
    histogram: Histogram,
    due: Vec<Vec<u32>>,
    measured: Ghost<nat>,
}

impl View for ReplayGain {
    type V = Session;

    closed spec fn view(&self) -> Session {
        Session {
            profile: self.profile,
            pending: self.assembler@,
            peak: self.peak@,
            counts: self.histogram@,
            due: contents(self.due@),
            measured: self.measured@,
        }
    }
}

impl ReplayGain {
    /// The parts are well formed and agree with each other.
    pub closed spec fn wf(&self) -> bool {
        &&& self@.wf()
        &&& self.assembler.wf()
        &&& self.assembler.frame_len() == self.profile.frame_samples()
        &&& self.peak.wf()
        &&& self.histogram.wf()
    }

    /// What a well-formed session holds is well formed.
    pub proof fn lemma_wf(&self)
        requires
            self.wf(),
        ensures
            self@.wf(),
    {
    }

    /// Starts the analysis of a stream with the given sample rate in Hz.
    /// A rate that is not supported has no session.
    pub fn new(sample_rate: usize) -> (session: Option<ReplayGain>)
        ensures
            session is Some <==> is_supported(sample_rate),
            session is Some ==> {
                &&& session->Some_0.wf()
                &&& session->Some_0@ == Session::fresh(profile_of(sample_rate)->Some_0)
                &&& session->Some_0@.profile.windows() == 1
            },
    {
        match lookup(sample_rate) {
            Some(profile) => {
                let histogram = Histogram::new();
                let due: Vec<Vec<u32>> = Vec::new();
                proof {
                    lemma_total_of_empty(histogram@);
                    assert(0 * profile.windows() == 0);
                    assert(contents(due@) =~= Seq::<Seq<u32>>::empty());
                }
                Some(
                    ReplayGain {
                        profile,
                        assembler: FrameAssembler::new(profile.frame_size()),
                        peak: PeakTracker::new(),
                        histogram,
                        due,
                        measured: Ghost(0),
                    },
                )
            },
            None => None,
        }
    }

    /// The sample rate in Hz.
    pub fn sample_rate(&self) -> (rate: usize)
        ensures
            rate == self@.profile.rate,
    {
        self.profile.rate
    }

    /// The number of interleaved samples in one frame: a twentieth of a
    /// second of both channels.
    pub fn frame_size(&self) -> (size: usize)
        requires
            self.wf(),
        ensures
            size == self@.profile.frame_samples(),
            size == self@.profile.rate / 20 * 2,
    {
        self.profile.frame_size()
    }

    /// The number of interleaved samples in one window.
    pub fn window_size(&self) -> (size: usize)
        requires
            self.wf(),
        ensures
            size == self@.profile.window_samples(),
            size > 0,
    {
        self.profile.window_size()
    }

    /// The number of windows in one frame, each of which is measured.
    pub fn windows_per_frame(&self) -> (count: usize)
        requires
            self.wf(),
        ensures
            count == self@.profile.windows(),
            count == self@.profile.frame_samples() / self@.profile.window_samples(),
    {
        proof {
            self.profile.lemma_windows();
        }
        self.profile.windows_per_frame()
    }

    /// The number of samples that wait for a frame to fill.
    pub fn pending_len(&self) -> (len: usize)
        ensures
            len == self@.pending.len(),
    {
        self.assembler.pending_len()
    }

    /// The number of frames that are due for measurement.
    pub fn awaiting(&self) -> (count: usize)
        ensures
            count == self@.due.len(),
    {
        self.due.len()
    }

    /// The number of windows whose loudness is counted.
    pub fn windows_counted(&self) -> (count: u64)
        requires
            self.wf(),
        ensures
            count == total_of(self@.counts),
            count == self@.measured * self@.profile.windows(),
    {
        self.histogram.total()
    }

    /// The greatest amplitude among the samples of the frames completed so
    /// far, as a binary32 bit pattern. What is pending counts at the end.
    pub fn peak(&self) -> (bits: u32)
        ensures
            bits == self@.peak,
    {
        self.peak.value()
    }

    /// Takes one whole frame past the buffer. The frame falls due at once.
    ///
    /// The frame must have the length of a frame, and nothing may be
    /// pending: this entry is for streams that arrive cut into frames and
    /// is not to be mixed with `process_samples`.
    pub fn process_frame(&mut self, frame: &[u32])
        requires
            old(self).wf(),
            frame@.len() == old(self)@.profile.frame_samples(),
            old(self)@.pending.len() == 0,
        ensures
            final(self).wf(),
            final(self)@ == old(self)@.accept(frame@),
            final(self)@.peak >= old(self)@.peak,
    {
        self.peak.observe_all(frame);
        self.due.push(slice_to_vec(frame));
        proof {
            assert(contents(self.due@) =~= contents(old(self).due@).push(frame@));
            lemma_accept(old(self)@, frame@);
        }
    }

    /// Takes a chunk of samples of any length. The frames that it completes
    /// fall due, in order, and raise the peak; what does not fill a frame
    /// waits for the next chunk and leaves the peak as it is.
    pub fn process_samples(&mut self, samples: &[u32])
        requires
            old(self).wf(),
        ensures
            final(self).wf(),
            final(self)@ == old(self)@.submit(samples@),
            final(self)@.peak >= old(self)@.peak,
            old(self)@.pending.len() + samples@.len() < old(self)@.profile.frame_samples()
                ==> final(self)@ == (Session {
                pending: old(self)@.pending + samples@,
                ..old(self)@
            }),
    {
        let mut frames = self.assembler.push(samples);
        observe_frames(&mut self.peak, &frames);
        proof {
            if old(self)@.pending.len() + samples@.len() < old(self)@.profile.frame_samples() {
                lemma_short_chunk(old(self)@, samples@);
            }
            lemma_contents_concat(self.due@, frames@);
            lemma_submit(old(self)@, samples@);
        }
        self.due.append(&mut frames);
    }

    /// The oldest frame that is due for measurement, if any is.
    pub fn due_frame(&self) -> (frame: Option<&[u32]>)
        requires
            self.wf(),
        ensures
            frame is Some <==> self@.due.len() > 0,
            frame is Some ==> frame->Some_0@ == self@.due[0] && frame->Some_0@.len()
                == self@.profile.frame_samples(),
    {
        if self.due.len() == 0 {
            None
        } else {
            proof {
                assert(contents(self.due@)[0] == self.due@[0]@);
            }
            Some(self.due[0].as_slice())
        }
    }

    /// Counts the loudness of the windows of the oldest frame that is due,
    /// which is then due no longer.
    pub fn record_frame(&mut self, levels: &[Loudness])
        requires
            old(self).wf(),
            old(self)@.due.len() > 0,
            levels@.len() == old(self)@.profile.windows(),
            total_of(old(self)@.counts) + levels@.len() <= u64::MAX,
        ensures
            final(self).wf(),
            final(self)@ == old(self)@.measure(levels@),
    {
        proof {
            self.histogram.lemma_wf_len();
            lemma_total_of_recorded_all(self@.counts, levels@);
        }
        self.histogram.record_all(levels);
        self.due.remove(0);
        proof {
            let before = old(self)@;
            assert((before.measured + 1) * before.profile.windows() == before.measured
                * before.profile.windows() + before.profile.windows()) by (nonlinear_arith);
            self.measured@ = self.measured@ + 1;
            assert(contents(self.due@) =~= before.due.drop_first());
        }
    }

    /// The frame that ends the stream: the pending samples, filled up with
    /// zeros. Its loudness is what `finish` asks for.
    pub fn final_frame(&self) -> (frame: Vec<u32>)
        requires
            self.wf(),
        ensures
            frame@ == self@.final_frame(),
            frame@.len() == self@.profile.frame_samples(),
    {
        self.assembler.final_frame()
    }

    /// Ends the analysis. No frame may be due any more, and `levels` is the
    /// loudness of the windows of the final frame, which is counted and
    /// raises the peak as every frame does. Returns the gain that brings
    /// the percentile of the measured loudness to the reference loudness,
    /// in hundredths of a decibel, and the peak as a binary32 bit pattern.
    pub fn finish(self, levels: &[Loudness]) -> (result: (i32, u32))
        requires
            self.wf(),
            self@.due.len() == 0,
            levels@.len() == self@.profile.windows(),
            total_of(self@.counts) + levels@.len() <= u64::MAX,
        ensures
            result.0 == gain_of(
                recorded_all(self@.counts, levels@),
                REFERENCE_LOUDNESS,
                PERCENTILE,
            ),
            result.1 == louder(self@.peak, peak_of(self@.pending)),
            result.0 == self@.outcome(levels@).0,
            result.1 == self@.outcome(levels@).1,
    {
        let mut session = self;
        session.histogram.record_all(levels);
        session.peak.observe_all(session.assembler.pending());
        let gain = session.histogram.percentile_gain(REFERENCE_LOUDNESS, PERCENTILE);
        (gain as i32, session.peak.value())
    }
}

/// Raises the peak to the greatest amplitude in `frames` where that is
/// greater.
fn observe_frames(peak: &mut PeakTracker, frames: &Vec<Vec<u32>>)
    requires
        old(peak).wf(),
    ensures
        final(peak).wf(),
        final(peak)@ == louder(old(peak)@, peak_of(joined(contents(frames@)))),
{
    let mut i: usize = 0;
    proof {
        assert(contents(frames@).take(0) =~= Seq::<Seq<u32>>::empty());
    }
    while i < frames.len()
        invariant
            i <= frames.len(),
            peak.wf(),
            peak@ == louder(old(peak)@, peak_of(joined(contents(frames@).take(i as int)))),
        decreases frames.len() - i,
    {
        proof {
            let seen = contents(frames@).take(i as int);
            let next = contents(frames@).take(i + 1);
            assert(next.drop_last() =~= seen);
            assert(next.last() == frames@[i as int]@);
            lemma_peak_of_concat(joined(seen), frames@[i as int]@);
        }
        peak.observe_all(frames[i].as_slice());
        i += 1;
    }
    proof {
        assert(contents(frames@).take(i as int) =~= contents(frames@));
    }
}

} // verus!
