//! What a session is, stated over sequences: its state, the events that
//! change it, and what holds of every run of events.

use vstd::prelude::*;
use crate::assembler::frames_of;
use crate::assembler::joined;
use crate::assembler::lemma_chunking;
use crate::assembler::lemma_frames_fill;
use crate::assembler::lemma_frames_rejoin;
use crate::assembler::lemma_joined_concat;
use crate::assembler::lemma_joined_one;
use crate::assembler::lemma_short_stream;
use crate::assembler::rest_of;
use crate::histogram::gain_of;
use crate::histogram::is_floor;
use crate::histogram::lemma_percentile_of_floor;
use crate::histogram::lemma_recorded_floor;
use crate::histogram::lemma_total_of_empty;
use crate::histogram::lemma_total_of_recorded_all;
use crate::histogram::only_floor;
use crate::histogram::recorded_all;
use crate::histogram::total_of;
use crate::histogram::Loudness;
use crate::histogram::SLOTS;
use crate::peak::amplitude;
use crate::peak::lemma_amplitude_values;
use crate::peak::lemma_peak_is_maximum;
use crate::peak::lemma_peak_monotonic;
use crate::peak::lemma_peak_of_concat;
use crate::peak::lemma_peak_of_impulse;
use crate::peak::lemma_peak_of_zeros;
use crate::peak::louder;
use crate::peak::peak_of;
use crate::peak::silence;
use crate::peak::FULL_SCALE_BITS;
use crate::peak::INFINITY_BITS;
use crate::rates::SampleRateProfile;
use crate::session::PERCENTILE;
use crate::session::REFERENCE_LOUDNESS;

verus! {

/// What a session holds.
pub ghost struct Session {
    /// What the sample rate fixes.
    pub profile: SampleRateProfile,
    /// The samples that wait for a frame to fill.
    pub pending: Seq<u32>,
    /// The greatest amplitude among the samples of the frames completed so
    /// far.
    pub peak: u32,
    /// The number of windows counted in each loudness bin.
    pub counts: Seq<nat>,
    /// The frames that are due for measurement, oldest first.
    pub due: Seq<Seq<u32>>,
    /// The number of frames whose loudness is counted.
    pub measured: nat,
}

impl Session {
    /// A session that has taken nothing.
    pub open spec fn fresh(profile: SampleRateProfile) -> Session {
        Session {
            profile,
            pending: Seq::empty(),
            peak: 0,
            counts: Seq::new(SLOTS as nat, |i: int| 0nat),
            due: Seq::empty(),
            measured: 0,
        }
    }

    /// Less than a frame is pending, the peak is an amplitude, what is due
    /// are whole frames, and each measured frame has been counted once for
    /// each of its windows.
    pub open spec fn wf(self) -> bool {
        &&& self.profile.wf()
        &&& self.pending.len() < self.profile.frame_samples()
        &&& self.peak <= INFINITY_BITS
        &&& self.counts.len() == SLOTS
        &&& total_of(self.counts) == self.measured * self.profile.windows()
        &&& forall|i: int|
            0 <= i < self.due.len() ==> (#[trigger] self.due[i]).len()
                == self.profile.frame_samples()
    }

    /// The frames that `chunk` completes.
    pub open spec fn completed(self, chunk: Seq<u32>) -> Seq<Seq<u32>> {
        frames_of(self.pending + chunk, self.profile.frame_samples())
    }

    /// The session after it has taken `chunk`: the frames that the chunk
    /// completes fall due and raise the peak, and what is left of the chunk
    /// is pending.
    pub open spec fn submit(self, chunk: Seq<u32>) -> Session {
        Session {
            pending: rest_of(self.pending + chunk, self.profile.frame_samples()),
            peak: louder(self.peak, peak_of(joined(self.completed(chunk)))),
            due: self.due + self.completed(chunk),
            ..self
        }
    }

    /// The session after it has taken one whole frame past the buffer.
    pub open spec fn accept(self, frame: Seq<u32>) -> Session {
        Session { peak: louder(self.peak, peak_of(frame)), due: self.due.push(frame), ..self }
    }

    /// The session after the loudness of the windows of the oldest frame
    /// that is due has been counted.
    pub open spec fn measure(self, levels: Seq<Loudness>) -> Session {
        Session {
            counts: recorded_all(self.counts, levels),
            due: self.due.drop_first(),
            measured: self.measured + 1,
            ..self
        }
    }

    /// The session after it has taken each of `chunks` in turn.
    pub open spec fn submit_each(self, chunks: Seq<Seq<u32>>) -> Session
        decreases chunks.len(),
    {
        if chunks.len() == 0 {
            self
        } else {
            self.submit_each(chunks.drop_last()).submit(chunks.last())
        }
    }

    /// The session after it has taken each of `frames` past the buffer.
    pub open spec fn accept_each(self, frames: Seq<Seq<u32>>) -> Session
        decreases frames.len(),
    {
        if frames.len() == 0 {
            self
        } else {
            self.accept_each(frames.drop_last()).accept(frames.last())
        }
    }

    /// The session after the loudness of each of a run of frames is counted.
    pub open spec fn measure_each(self, levels: Seq<Seq<Loudness>>) -> Session
        decreases levels.len(),
    {
        if levels.len() == 0 {
            self
        } else {
            self.measure_each(levels.drop_last()).measure(levels.last())
        }
    }

    /// The frame that ends the stream: what is pending, filled up with zeros.
    pub open spec fn final_frame(self) -> Seq<u32> {
        self.pending + silence((self.profile.frame_samples() - self.pending.len()) as nat)
    }

    /// The gain, in hundredths of a decibel, and the peak with which the
    /// session ends, where `levels` is the loudness of the final frame: the
    /// final frame is counted and raises the peak as every frame does, and
    /// the gain brings the percentile of what is then counted to the
    /// reference loudness.
    pub open spec fn outcome(self, levels: Seq<Loudness>) -> (int, u32) {
        (
            gain_of(recorded_all(self.counts, levels), REFERENCE_LOUDNESS, PERCENTILE),
            louder(self.peak, peak_of(self.pending)),
        )
    }
}

/// What happens to a session before it ends.
pub ghost enum Event {
    /// A chunk of samples of any length is taken.
    Samples(Seq<u32>),
    /// A whole frame is taken past the buffer.
    Frame(Seq<u32>),
    /// The loudness of the windows of the oldest frame that is due is counted.
    Measured(Seq<Loudness>),
}

/// The samples that a run of events brings, in order.
pub open spec fn samples_in(events: Seq<Event>) -> Seq<u32>
    decreases events.len(),
{
    if events.len() == 0 {
        Seq::empty()
    } else {
        match events.last() {
            Event::Samples(chunk) => samples_in(events.drop_last()) + chunk,
            Event::Frame(frame) => samples_in(events.drop_last()) + frame,
            Event::Measured(_) => samples_in(events.drop_last()),
        }
    }
}

/// The measurements that a run of events brings, in order.
pub open spec fn levels_in(events: Seq<Event>) -> Seq<Seq<Loudness>>
    decreases events.len(),
{
    if events.len() == 0 {
        Seq::empty()
    } else {
        match events.last() {
            Event::Measured(levels) => levels_in(events.drop_last()).push(levels),
            _ => levels_in(events.drop_last()),
        }
    }
}

impl Session {
    /// Whether `event` may happen to the session: a whole frame is taken
    /// past the buffer only while nothing is pending, and a measurement is
    /// counted only while a frame is due.
    pub open spec fn admits(self, event: Event) -> bool {
        match event {
            Event::Samples(_) => true,
            Event::Frame(frame) => self.pending.len() == 0 && frame.len()
                == self.profile.frame_samples(),
            Event::Measured(levels) => self.due.len() > 0 && levels.len()
                == self.profile.windows(),
        }
    }

    /// The session after `event`.
    pub open spec fn step(self, event: Event) -> Session {
        match event {
            Event::Samples(chunk) => self.submit(chunk),
            Event::Frame(frame) => self.accept(frame),
            Event::Measured(levels) => self.measure(levels),
        }
    }

    /// The session after each of `events` in turn.
    pub open spec fn run(self, events: Seq<Event>) -> Session
        decreases events.len(),
    {
        if events.len() == 0 {
            self
        } else {
            self.run(events.drop_last()).step(events.last())
        }
    }

    /// Whether each of `events` may happen in its turn.
    pub open spec fn admits_each(self, events: Seq<Event>) -> bool
        decreases events.len(),
    {
        events.len() > 0 ==> self.admits_each(events.drop_last()) && self.run(
            events.drop_last(),
        ).admits(events.last())
    }
}

/// Taking a chunk keeps a session well formed, at most raises its peak, and
/// leaves what is counted as it is.
pub proof fn lemma_submit(session: Session, chunk: Seq<u32>)
    requires
        session.wf(),
    ensures
        session.submit(chunk).wf(),
        session.submit(chunk).peak >= session.peak,
        session.submit(chunk).counts == session.counts,
        session.submit(chunk).measured == session.measured,
{
    session.profile.lemma_windows();
    lemma_frames_fill(session.pending + chunk, session.profile.frame_samples());
    lemma_peak_is_maximum(joined(session.completed(chunk)));
    let after = session.submit(chunk);
    assert forall|i: int| 0 <= i < after.due.len() implies (#[trigger] after.due[i]).len()
        == session.profile.frame_samples() by {
        if i < session.due.len() {
            assert(after.due[i] == session.due[i]);
        } else {
            assert(after.due[i] == session.completed(chunk)[i - session.due.len()]);
        }
    }
}

/// Taking a whole frame past the buffer keeps a session well formed, at
/// most raises its peak, and leaves what is counted as it is.
pub proof fn lemma_accept(session: Session, frame: Seq<u32>)
    requires
        session.wf(),
        frame.len() == session.profile.frame_samples(),
    ensures
        session.accept(frame).wf(),
        session.accept(frame).peak >= session.peak,
        session.accept(frame).counts == session.counts,
        session.accept(frame).measured == session.measured,
{
    lemma_peak_is_maximum(frame);
    let after = session.accept(frame);
    assert forall|i: int| 0 <= i < after.due.len() implies (#[trigger] after.due[i]).len()
        == session.profile.frame_samples() by {
        if i < session.due.len() {
            assert(after.due[i] == session.due[i]);
        }
    }
}

/// A chunk that completes no frame is added to what is pending and
/// changes nothing else: no frame falls due, and the peak stays.
pub proof fn lemma_short_chunk(session: Session, chunk: Seq<u32>)
    requires
        session.wf(),
        session.pending.len() + chunk.len() < session.profile.frame_samples(),
    ensures
        session.submit(chunk) == (Session { pending: session.pending + chunk, ..session }),
{
    lemma_short_stream(session.pending + chunk, session.profile.frame_samples());
    assert(session.due + Seq::<Seq<u32>>::empty() =~= session.due);
}

/// A chunk without samples changes nothing.
pub proof fn lemma_submit_nothing(session: Session)
    requires
        session.wf(),
    ensures
        session.submit(Seq::empty()) == session,
{
    lemma_short_chunk(session, Seq::empty());
    assert(session.pending + Seq::<u32>::empty() =~= session.pending);
}

/// Where a stream is cut does not matter: to take two chunks one after the
/// other is to take them as one chunk.
pub proof fn lemma_split_submission(session: Session, first: Seq<u32>, second: Seq<u32>)
    requires
        session.wf(),
    ensures
        session.submit(first).submit(second) == session.submit(first + second),
{
    let size = session.profile.frame_samples();
    let early = session.completed(first);
    let late = session.submit(first).completed(second);
    session.profile.lemma_windows();
    assert((session.pending + first) + second =~= session.pending + (first + second));
    lemma_chunking(session.pending + first, second, size);
    lemma_joined_concat(early, late);
    lemma_peak_of_concat(joined(early), joined(late));
    assert((session.due + early) + late =~= session.due + session.completed(first + second));
}

/// Chunking invariance: to take a stream in any number of chunks of any
/// lengths is to take it in one chunk. The same frames fall due in the same
/// order, the same samples are left pending, and the peak is the same.
pub proof fn lemma_chunking_invariance(session: Session, chunks: Seq<Seq<u32>>)
    requires
        session.wf(),
    ensures
        session.submit_each(chunks) == session.submit(joined(chunks)),
    decreases chunks.len(),
{
    if chunks.len() == 0 {
        lemma_submit_nothing(session);
    } else {
        lemma_chunking_invariance(session, chunks.drop_last());
        lemma_split_submission(session, joined(chunks.drop_last()), chunks.last());
    }
}

/// A whole frame taken past the buffer leaves the session as the same
/// frame taken as a chunk does.
pub proof fn lemma_strict_frame(session: Session, frame: Seq<u32>)
    requires
        session.wf(),
        session.pending.len() == 0,
        frame.len() == session.profile.frame_samples(),
    ensures
        session.accept(frame) == session.submit(frame),
        session.completed(frame) == seq![frame],
{
    let size = session.profile.frame_samples();
    session.profile.lemma_windows();
    assert(session.pending + frame =~= frame);
    vstd::arithmetic::div_mod::lemma_fundamental_div_mod_converse(
        size as int,
        size as int,
        1,
        0,
    );
    assert(rest_of(frame, size) =~= session.pending);
    assert(frames_of(frame, size) =~= seq![frame]) by {
        assert(frames_of(frame, size)[0] =~= frame);
    }
    lemma_joined_one(frame);
    assert(session.due + seq![frame] =~= session.due.push(frame));
}

/// A stream of whole frames taken frame by frame past the buffer leaves
/// the session as the same stream taken as one chunk does: each of the
/// frames falls due, in order, and nothing is pending.
pub proof fn lemma_strict_frames(session: Session, frames: Seq<Seq<u32>>)
    requires
        session.wf(),
        session.pending.len() == 0,
        forall|i: int|
            0 <= i < frames.len() ==> (#[trigger] frames[i]).len()
                == session.profile.frame_samples(),
    ensures
        session.accept_each(frames) == session.submit(joined(frames)),
        session.submit(joined(frames)).due == session.due + frames,
        session.submit(joined(frames)).pending.len() == 0,
    decreases frames.len(),
{
    if frames.len() == 0 {
        lemma_submit_nothing(session);
        assert(session.due + frames =~= session.due);
    } else {
        let front = frames.drop_last();
        lemma_strict_frames(session, front);
        let before = session.submit(joined(front));
        lemma_submit(session, joined(front));
        lemma_split_submission(session, joined(front), frames.last());
        lemma_strict_frame(before, frames.last());
        assert((session.due + front).push(frames.last()) =~= session.due + frames);
    }
}

/// Measuring a frame keeps a session well formed and raises the number
/// of windows counted by the number of windows in a frame.
pub proof fn lemma_measure(session: Session, levels: Seq<Loudness>)
    requires
        session.wf(),
        session.due.len() > 0,
        levels.len() == session.profile.windows(),
    ensures
        session.measure(levels).wf(),
        total_of(session.measure(levels).counts) == total_of(session.counts)
            + session.profile.windows(),
        session.measure(levels).peak == session.peak,
        session.measure(levels).pending == session.pending,
{
    lemma_total_of_recorded_all(session.counts, levels);
    assert((session.measured + 1) * session.profile.windows() == session.measured
        * session.profile.windows() + session.profile.windows()) by (nonlinear_arith);
    let after = session.measure(levels);
    assert forall|i: int| 0 <= i < after.due.len() implies (#[trigger] after.due[i]).len()
        == session.profile.frame_samples() by {
        assert(after.due[i] == session.due[i + 1]);
    }
}

/// Measurements leave the samples that are pending, the peak and the
/// profile as they are.
pub proof fn lemma_measure_each_keeps(session: Session, levels: Seq<Seq<Loudness>>)
    ensures
        session.measure_each(levels).pending == session.pending,
        session.measure_each(levels).peak == session.peak,
        session.measure_each(levels).profile == session.profile,
    decreases levels.len(),
{
    if levels.len() > 0 {
        lemma_measure_each_keeps(session, levels.drop_last());
    }
}

/// Measurements take the frames that are due from the front.
pub proof fn lemma_measure_each_due(session: Session, levels: Seq<Seq<Loudness>>)
    requires
        levels.len() <= session.due.len(),
    ensures
        session.measure_each(levels).due == session.due.skip(levels.len() as int),
    decreases levels.len(),
{
    if levels.len() == 0 {
        assert(session.due.skip(0) =~= session.due);
    } else {
        lemma_measure_each_due(session, levels.drop_last());
        assert(session.due.skip(levels.len() - 1).drop_first() =~= session.due.skip(
            levels.len() as int,
        ));
    }
}

/// Measuring a run of frames keeps a session well formed and counts each
/// frame once for each of its windows.
pub proof fn lemma_measure_each(session: Session, levels: Seq<Seq<Loudness>>)
    requires
        session.wf(),
        levels.len() <= session.due.len(),
        forall|i: int|
            0 <= i < levels.len() ==> (#[trigger] levels[i]).len() == session.profile.windows(),
    ensures
        session.measure_each(levels).wf(),
        session.measure_each(levels).measured == session.measured + levels.len(),
        total_of(session.measure_each(levels).counts) == total_of(session.counts) + levels.len()
            * session.profile.windows(),
    decreases levels.len(),
{
    if levels.len() == 0 {
        assert(0 * session.profile.windows() == 0);
    } else {
        let front = levels.drop_last();
        assert forall|i: int| 0 <= i < front.len() implies (#[trigger] front[i]).len()
            == session.profile.windows() by {
            assert(front[i] == levels[i]);
        }
        lemma_measure_each(session, front);
        lemma_measure_each_keeps(session, front);
        lemma_measure_each_due(session, front);
        lemma_measure(session.measure_each(front), levels.last());
        assert((front.len() + 1) * session.profile.windows() == front.len()
            * session.profile.windows() + session.profile.windows()) by (nonlinear_arith);
    }
}

/// Samples and measurements do not disturb each other: whether a
/// measurement is counted before or after a chunk is taken, the session
/// is the same.
pub proof fn lemma_measure_commutes(session: Session, chunk: Seq<u32>, levels: Seq<Loudness>)
    requires
        session.due.len() > 0,
    ensures
        session.measure(levels).submit(chunk) == session.submit(chunk).measure(levels),
{
    assert(session.due.drop_first() + session.completed(chunk) =~= (session.due
        + session.completed(chunk)).drop_first());
}

/// The peak with which a session ends that has taken a stream from its
/// start is the greatest amplitude of the stream, whatever was measured.
/// Before the end the peak is that of the frames that the stream completed.
pub proof fn lemma_peak_of_stream(
    profile: SampleRateProfile,
    stream: Seq<u32>,
    levels: Seq<Seq<Loudness>>,
    last: Seq<Loudness>,
)
    requires
        profile.wf(),
    ensures
        Session::fresh(profile).submit(stream).peak == peak_of(
            joined(frames_of(stream, profile.frame_samples())),
        ),
        Session::fresh(profile).submit(stream).measure_each(levels).outcome(last).1 == peak_of(
            stream,
        ),
{
    let size = profile.frame_samples();
    let taken = Session::fresh(profile).submit(stream);
    profile.lemma_windows();
    assert(Seq::<u32>::empty() + stream =~= stream);
    lemma_frames_rejoin(stream, size);
    lemma_peak_of_concat(joined(frames_of(stream, size)), rest_of(stream, size));
    lemma_measure_each_keeps(taken, levels);
}

/// Peak monotonicity: after a stream and more samples the peak is at
/// least what it was after the stream, both while the session runs and
/// at its end.
pub proof fn lemma_peak_never_falls(
    profile: SampleRateProfile,
    stream: Seq<u32>,
    more: Seq<u32>,
    last: Seq<Loudness>,
)
    requires
        profile.wf(),
    ensures
        Session::fresh(profile).submit(stream).peak <= Session::fresh(profile).submit(
            stream + more,
        ).peak,
        Session::fresh(profile).submit(stream).outcome(last).1 <= Session::fresh(profile).submit(
            stream + more,
        ).outcome(last).1,
{
    let fresh = Session::fresh(profile);
    lemma_total_of_empty(fresh.counts);
    assert(0 * profile.windows() == 0);
    lemma_split_submission(fresh, stream, more);
    lemma_submit(fresh, stream);
    lemma_submit(fresh.submit(stream), more);
    lemma_peak_of_stream(profile, stream, Seq::empty(), last);
    lemma_peak_of_stream(profile, stream + more, Seq::empty(), last);
    lemma_peak_monotonic(stream, more);
}

/// Measurements of the floor bin leave every other bin empty.
proof fn lemma_measure_each_floor(session: Session, levels: Seq<Seq<Loudness>>)
    requires
        session.counts.len() == SLOTS,
        only_floor(session.counts),
        forall|i: int, j: int|
            0 <= i < levels.len() && 0 <= j < levels[i].len() ==> is_floor(
                #[trigger] levels[i][j],
            ),
    ensures
        session.measure_each(levels).counts.len() == SLOTS,
        only_floor(session.measure_each(levels).counts),
    decreases levels.len(),
{
    if levels.len() > 0 {
        let front = levels.drop_last();
        assert forall|i: int, j: int| 0 <= i < front.len() && 0 <= j < front[i].len() implies is_floor(
            #[trigger] front[i][j],
        ) by {
            assert(front[i] == levels[i]);
        }
        lemma_measure_each_floor(session, front);
        let last = levels.last();
        assert forall|j: int| 0 <= j < last.len() implies is_floor(#[trigger] last[j]) by {
            assert(last[j] == levels[levels.len() - 1][j]);
        }
        lemma_recorded_floor(session.measure_each(front).counts, last);
    }
}

/// Silence: a stream of zeros of any length, each window of which measures
/// as silence, ends with the peak zero and with the gain of a session in
/// which nothing is counted: the reference loudness, the greatest gain
/// that any measurement can give.
pub proof fn lemma_silence(
    profile: SampleRateProfile,
    stream: Seq<u32>,
    levels: Seq<Seq<Loudness>>,
    last: Seq<Loudness>,
)
    requires
        profile.wf(),
        forall|i: int| 0 <= i < stream.len() ==> amplitude(#[trigger] stream[i]) == 0,
        forall|i: int, j: int|
            0 <= i < levels.len() && 0 <= j < levels[i].len() ==> is_floor(
                #[trigger] levels[i][j],
            ),
        forall|j: int| 0 <= j < last.len() ==> is_floor(#[trigger] last[j]),
    ensures
        Session::fresh(profile).submit(stream).measure_each(levels).outcome(last) == (
            REFERENCE_LOUDNESS as int,
            0u32,
        ),
        gain_of(Session::fresh(profile).counts, REFERENCE_LOUDNESS, PERCENTILE)
            == REFERENCE_LOUDNESS,
{
    let taken = Session::fresh(profile).submit(stream);
    let end = taken.measure_each(levels);
    lemma_peak_of_zeros(stream);
    lemma_peak_of_stream(profile, stream, levels, last);
    lemma_measure_each_floor(taken, levels);
    lemma_recorded_floor(end.counts, last);
    lemma_percentile_of_floor(taken.counts, REFERENCE_LOUDNESS, PERCENTILE);
    lemma_percentile_of_floor(recorded_all(end.counts, last), REFERENCE_LOUDNESS, PERCENTILE);
}

/// Full-scale impulse: a stream of zeros but for one sample of amplitude
/// 1.0, of either sign, ends with the peak 1.0, whatever is measured.
pub proof fn lemma_impulse(
    profile: SampleRateProfile,
    stream: Seq<u32>,
    at: int,
    levels: Seq<Seq<Loudness>>,
    last: Seq<Loudness>,
)
    requires
        profile.wf(),
        0 <= at < stream.len(),
        stream[at] == FULL_SCALE_BITS || stream[at] == 0xBF80_0000u32,
        forall|i: int| 0 <= i < stream.len() && i != at ==> amplitude(#[trigger] stream[i]) == 0,
    ensures
        Session::fresh(profile).submit(stream).measure_each(levels).outcome(last).1
            == FULL_SCALE_BITS,
{
    lemma_amplitude_values();
    lemma_peak_of_impulse(stream, at);
    lemma_peak_of_stream(profile, stream, levels, last);
}

/// Histogram total: after a stream of whole frames, each of which has been
/// measured, nothing is due or pending, and the number of windows counted
/// is the number of frames times the number of windows in a frame, the
/// frame size divided by the window size.
pub proof fn lemma_windows_counted(
    profile: SampleRateProfile,
    frames: Seq<Seq<u32>>,
    levels: Seq<Seq<Loudness>>,
)
    requires
        profile.wf(),
        levels.len() == frames.len(),
        forall|i: int|
            0 <= i < frames.len() ==> (#[trigger] frames[i]).len() == profile.frame_samples(),
        forall|i: int| 0 <= i < levels.len() ==> (#[trigger] levels[i]).len() == profile.windows(),
    ensures
        Session::fresh(profile).submit(joined(frames)).due == frames,
        Session::fresh(profile).submit(joined(frames)).measure_each(levels).due.len() == 0,
        Session::fresh(profile).submit(joined(frames)).measure_each(levels).pending.len() == 0,
        total_of(Session::fresh(profile).submit(joined(frames)).measure_each(levels).counts)
            == frames.len() * (profile.frame_samples() / profile.window_samples()),
{
    let fresh = Session::fresh(profile);
    profile.lemma_windows();
    lemma_total_of_empty(fresh.counts);
    assert(0 * profile.windows() == 0);
    lemma_strict_frames(fresh, frames);
    assert(fresh.due + frames =~= frames);
    let taken = fresh.submit(joined(frames));
    lemma_submit(fresh, joined(frames));
    lemma_measure_each(taken, levels);
    lemma_measure_each_keeps(taken, levels);
    lemma_measure_each_due(taken, levels);
}

/// Each measured frame is counted once for each of its windows: in every
/// well-formed session the number of windows counted is the number of
/// frames measured times the frame size divided by the window size.
pub proof fn lemma_histogram_total(session: Session)
    requires
        session.wf(),
    ensures
        total_of(session.counts) == session.measured * (session.profile.frame_samples()
            / session.profile.window_samples()),
{
    session.profile.lemma_windows();
}

/// A run of measurements and a chunk do not disturb each other.
pub proof fn lemma_measure_each_commutes(
    session: Session,
    chunk: Seq<u32>,
    levels: Seq<Seq<Loudness>>,
)
    requires
        levels.len() <= session.due.len(),
    ensures
        session.measure_each(levels).submit(chunk) == session.submit(chunk).measure_each(levels),
    decreases levels.len(),
{
    if levels.len() > 0 {
        let front = levels.drop_last();
        lemma_measure_each_commutes(session, chunk, front);
        lemma_measure_each_due(session, front);
        lemma_measure_commutes(session.measure_each(front), chunk, levels.last());
    }
}

/// A session is what its stream and its measurements make it: after any
/// run of events that may happen to it, it is the session that has taken
/// all samples of the run as one chunk and has then counted all
/// measurements of the run. Neither the lengths of the chunks, nor which
/// of the two entries took a frame, nor when the measurements came in makes
/// a difference to what is pending, to the peak, to what is counted, and so
/// to the gain and the peak with which the session ends.
pub proof fn lemma_run(session: Session, events: Seq<Event>)
    requires
        session.wf(),
        session.admits_each(events),
    ensures
        session.run(events).wf(),
        levels_in(events).len() <= session.submit(samples_in(events)).due.len(),
        session.run(events) == session.submit(samples_in(events)).measure_each(
            levels_in(events),
        ),
    decreases events.len(),
{
    if events.len() == 0 {
        lemma_submit_nothing(session);
    } else {
        let front = events.drop_last();
        let stream = samples_in(front);
        let levels = levels_in(front);
        let taken = session.submit(stream);
        lemma_run(session, front);
        lemma_submit(session, stream);
        lemma_measure_each_due(taken, levels);
        match events.last() {
            Event::Samples(chunk) => {
                lemma_submit(session.run(front), chunk);
                lemma_measure_each_commutes(taken, chunk, levels);
                lemma_split_submission(session, stream, chunk);
            },
            Event::Frame(frame) => {
                lemma_accept(session.run(front), frame);
                lemma_strict_frame(session.run(front), frame);
                lemma_measure_each_commutes(taken, frame, levels);
                lemma_split_submission(session, stream, frame);
            },
            Event::Measured(measurement) => {
                lemma_measure(session.run(front), measurement);
                assert(levels.push(measurement).drop_last() =~= levels);
            },
        }
    }
}

/// Chunking invariance of the outcome: two runs of events that bring the
/// same samples and the same measurements end with the same gain and the
/// same peak, however the samples are cut into chunks.
pub proof fn lemma_same_outcome(
    session: Session,
    first: Seq<Event>,
    second: Seq<Event>,
    last: Seq<Loudness>,
)
    requires
        session.wf(),
        session.admits_each(first),
        session.admits_each(second),
        samples_in(first) == samples_in(second),
        levels_in(first) == levels_in(second),
    ensures
        session.run(first) == session.run(second),
        session.run(first).final_frame() == session.run(second).final_frame(),
        session.run(first).outcome(last) == session.run(second).outcome(last),
{
    lemma_run(session, first);
    lemma_run(session, second);
}

/// An event that may happen keeps a session well formed and does not lower
/// its peak.
pub proof fn lemma_step(session: Session, event: Event)
    requires
        session.wf(),
        session.admits(event),
    ensures
        session.step(event).wf(),
        session.step(event).peak >= session.peak,
{
    match event {
        Event::Samples(chunk) => lemma_submit(session, chunk),
        Event::Frame(frame) => lemma_accept(session, frame),
        Event::Measured(levels) => lemma_measure(session, levels),
    }
}

/// Peak monotonicity: at no point of a run is the peak greater than it is
/// at any later point.
pub proof fn lemma_peak_along_run(session: Session, events: Seq<Event>, point: int)
    requires
        session.wf(),
        session.admits_each(events),
        0 <= point <= events.len(),
    ensures
        session.run(events.take(point)).peak <= session.run(events).peak,
    decreases events.len(),
{
    if point == events.len() {
        assert(events.take(point) =~= events);
    } else {
        let front = events.drop_last();
        lemma_peak_along_run(session, front, point);
        lemma_run(session, front);
        lemma_step(session.run(front), events.last());
        assert(events.take(point) =~= front.take(point));
    }
}

} // verus!
