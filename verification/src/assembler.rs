//! Cuts a sample stream that arrives in chunks of any length into frames of
//! one fixed length.

use vstd::prelude::*;
use vstd::slice::slice_subrange;
use vstd::slice::slice_to_vec;
use crate::peak::silence;

verus! {

/// The complete frames of `stream`, in order: frame `i` holds the samples
/// from `i * frame_size` up to `(i + 1) * frame_size`.
pub open spec fn frames_of(stream: Seq<u32>, frame_size: nat) -> Seq<Seq<u32>> {
    Seq::new(
        stream.len() / frame_size,
        |i: int| stream.subrange(i * frame_size, (i + 1) * frame_size),
    )
}

/// What is left of `stream` behind its last complete frame.
pub open spec fn rest_of(stream: Seq<u32>, frame_size: nat) -> Seq<u32> {
    stream.skip(stream.len() - stream.len() % frame_size)
}

/// The contents of each frame of `frames`.
pub open spec fn contents(frames: Seq<Vec<u32>>) -> Seq<Seq<u32>> {
    Seq::new(frames.len(), |i: int| frames[i]@)
}

/// The samples of `chunks`, one chunk after the other.
pub open spec fn joined(chunks: Seq<Seq<u32>>) -> Seq<u32>
    decreases chunks.len(),
{
    if chunks.len() == 0 {
        Seq::empty()
    } else {
        joined(chunks.drop_last()) + chunks.last()
    }
}

/// Buffers samples until they fill a frame.
pub struct FrameAssembler {
    frame_size: usize,
    pending: Vec<u32>,
}

impl View for FrameAssembler {
    type V = Seq<u32>;

    /// The samples that wait for a frame to fill, oldest first.
    closed spec fn view(&self) -> Seq<u32> {
        self.pending@
    }
}

impl FrameAssembler {
    /// The number of samples in one frame.
    pub closed spec fn frame_len(&self) -> nat {
        self.frame_size as nat
    }

    /// At rest the buffer holds less than one frame.
    pub open spec fn wf(&self) -> bool {
        self@.len() < self.frame_len()
    }

    /// An assembler with an empty buffer.
    pub fn new(frame_size: usize) -> (assembler: FrameAssembler)
        requires
            frame_size > 0,
        ensures
            assembler.wf(),
            assembler.frame_len() == frame_size,
            assembler@ == Seq::<u32>::empty(),
    {
        FrameAssembler { frame_size, pending: Vec::new() }
    }

    /// The number of samples in one frame.
    pub fn frame_size(&self) -> (size: usize)
        ensures
            size == self.frame_len(),
    {
        self.frame_size
    }

    /// The number of buffered samples.
    pub fn pending_len(&self) -> (len: usize)
        ensures
            len == self@.len(),
    {
        self.pending.len()
    }

    /// The buffered samples, oldest first.
    pub fn pending(&self) -> (samples: &[u32])
        ensures
            samples@ == self@,
    {
        self.pending.as_slice()
    }

    /// Takes a chunk of any length and returns the frames it completes.
    ///
    /// The buffered samples and the chunk are read as one stream: its
    /// complete frames are returned in order, and what is left behind the
    /// last of them stays in the buffer.
    pub fn push(&mut self, samples: &[u32]) -> (frames: Vec<Vec<u32>>)
        requires
            old(self).wf(),
        ensures
            final(self).wf(),
            final(self).frame_len() == old(self).frame_len(),
            contents(frames@) == frames_of(old(self)@ + samples@, old(self).frame_len()),
            final(self)@ == rest_of(old(self)@ + samples@, old(self).frame_len()),
            forall|i: int|
                0 <= i < frames@.len() ==> (#[trigger] frames@[i])@.len() == old(self).frame_len(),
    {
        let frame_size = self.frame_size;
        let ghost buffered = self.pending@;
        let ghost stream = buffered + samples@;
        proof {
            lemma_frames_fill(stream, frame_size as nat);
        }
        let mut frames: Vec<Vec<u32>> = Vec::new();
        let mut start: usize = 0;
        if self.pending.len() > 0 {
            let required = frame_size - self.pending.len();
            if samples.len() < required {
                extend(&mut self.pending, samples);
                proof {
                    lemma_short_stream(stream, frame_size as nat);
                    assert(contents(frames@) =~= frames_of(stream, frame_size as nat));
                }
                return frames;
            }
            extend(&mut self.pending, slice_subrange(samples, 0, required));
            let mut frame: Vec<u32> = Vec::new();
            frame.append(&mut self.pending);
            assert(frame@ =~= stream.subrange(0, frame_size as int));
            frames.push(frame);
            start = required;
            assert(frames@.len() == 1);
            assert(frames[0]@ == stream.subrange(0 * frame_size, (0 + 1) * frame_size));
        }
        while samples.len() - start >= frame_size
            invariant
                frame_size == self.frame_size > 0,
                stream == buffered + samples@,
                self.pending@.len() == 0,
                start <= samples.len(),
                start + buffered.len() == frames.len() * frame_size,
                forall|i: int|
                    0 <= i < frames.len() ==> (#[trigger] frames[i])@ == stream.subrange(
                        i * frame_size,
                        (i + 1) * frame_size,
                    ),
            decreases samples.len() - start,
        {
            let frame = slice_to_vec(slice_subrange(samples, start, start + frame_size));
            proof {
                let done = frames.len() as int;
                assert((done + 1) * frame_size == done * frame_size + frame_size)
                    by (nonlinear_arith);
                assert(frame@ =~= stream.subrange(done * frame_size, (done + 1) * frame_size));
            }
            frames.push(frame);
            start += frame_size;
        }
        extend(&mut self.pending, slice_subrange(samples, start, samples.len()));
        proof {
            let done = frames.len() as int;
            lemma_quotient(stream.len() as int, frame_size as int, done);
            assert(self.pending@ =~= rest_of(stream, frame_size as nat));
            assert(contents(frames@) =~= frames_of(stream, frame_size as nat));
            assert forall|i: int| 0 <= i < frames@.len() implies (#[trigger] frames@[i])@.len()
                == frame_size by {
                assert(frames@[i]@ == contents(frames@)[i]);
                assert(frames_of(stream, frame_size as nat)[i].len() == frame_size);
            }
        }
        frames
    }

    /// The buffered samples followed by as many zeros as fill one frame:
    /// the frame that ends the stream.
    pub fn final_frame(&self) -> (frame: Vec<u32>)
        requires
            self.wf(),
        ensures
            frame@ == self@ + silence((self.frame_len() - self@.len()) as nat),
            frame@.len() == self.frame_len(),
    {
        let mut frame: Vec<u32> = Vec::new();
        extend(&mut frame, self.pending.as_slice());
        while frame.len() < self.frame_size
            invariant
                self.pending@.len() <= frame@.len() <= self.frame_size,
                frame@ == self.pending@ + silence((frame@.len() - self.pending@.len()) as nat),
            decreases self.frame_size - frame.len(),
        {
            frame.push(0);
            assert(frame@ =~= self.pending@ + silence((frame@.len() - self.pending@.len()) as nat));
        }
        frame
    }
}

/// Appends `samples` to `buffer`.
fn extend(buffer: &mut Vec<u32>, samples: &[u32])
    ensures
        final(buffer)@ == old(buffer)@ + samples@,
{
    let mut i: usize = 0;
    while i < samples.len()
        invariant
            i <= samples.len(),
            buffer@ == old(buffer)@ + samples@.take(i as int),
        decreases samples.len() - i,
    {
        buffer.push(samples[i]);
        i += 1;
        assert(buffer@ =~= old(buffer)@ + samples@.take(i as int));
    }
    assert(samples@.take(i as int) =~= samples@);
}

/// A stream shorter than a frame has no complete frame and is its own rest.
pub proof fn lemma_short_stream(stream: Seq<u32>, frame_size: nat)
    requires
        stream.len() < frame_size,
    ensures
        frames_of(stream, frame_size) == Seq::<Seq<u32>>::empty(),
        rest_of(stream, frame_size) == stream,
{
    lemma_quotient(stream.len() as int, frame_size as int, 0);
    assert(frames_of(stream, frame_size) =~= Seq::<Seq<u32>>::empty());
    assert(rest_of(stream, frame_size) =~= stream);
}

/// Where a stream is cut into chunks does not matter: the frames of a
/// stream followed by more samples are the frames of the stream, then the
/// frames of what the stream left over followed by those samples; and the
/// rest is the same either way.
pub proof fn lemma_chunking(stream: Seq<u32>, more: Seq<u32>, frame_size: nat)
    requires
        frame_size > 0,
    ensures
        frames_of(stream + more, frame_size) == frames_of(stream, frame_size) + frames_of(
            rest_of(stream, frame_size) + more,
            frame_size,
        ),
        rest_of(stream + more, frame_size) == rest_of(
            rest_of(stream, frame_size) + more,
            frame_size,
        ),
{
    let size = frame_size as int;
    let whole = stream + more;
    let carried = rest_of(stream, frame_size) + more;
    let first = stream.len() as int / size;
    let second = carried.len() as int / size;
    vstd::arithmetic::div_mod::lemma_fundamental_div_mod(stream.len() as int, size);
    vstd::arithmetic::div_mod::lemma_fundamental_div_mod(carried.len() as int, size);
    let cut = first * size;
    assert(cut == size * first) by (nonlinear_arith)
        requires
            cut == first * size,
    ;
    assert(0 <= cut <= stream.len());
    assert(carried.len() == whole.len() - cut);
    assert((first + second) * size == cut + second * size) by (nonlinear_arith)
        requires
            cut == first * size,
    ;
    assert(second * size == size * second) by (nonlinear_arith);
    lemma_quotient(whole.len() as int, size, first + second);
    assert(rest_of(whole, frame_size) =~= rest_of(carried, frame_size));

    let split = frames_of(stream, frame_size) + frames_of(carried, frame_size);
    assert(frames_of(whole, frame_size).len() == split.len());
    assert forall|i: int| 0 <= i < split.len() implies frames_of(whole, frame_size)[i]
        == split[i] by {
        if i < first {
            assert((i + 1) * size <= first * size) by (nonlinear_arith)
                requires
                    i + 1 <= first,
                    size > 0,
            ;
            assert(0 <= i * size <= (i + 1) * size) by (nonlinear_arith)
                requires
                    0 <= i,
                    size > 0,
            ;
            assert(whole.subrange(i * size, (i + 1) * size) =~= stream.subrange(
                i * size,
                (i + 1) * size,
            ));
        } else {
            let j = i - first;
            assert(i * size == cut + j * size && (i + 1) * size == cut + (j + 1) * size)
                by (nonlinear_arith)
                requires
                    cut == first * size,
                    j == i - first,
            ;
            assert((j + 1) * size <= second * size) by (nonlinear_arith)
                requires
                    j + 1 <= second,
                    size > 0,
            ;
            assert(0 <= j * size <= (j + 1) * size) by (nonlinear_arith)
                requires
                    0 <= j,
                    size > 0,
            ;
            assert(whole.subrange(i * size, (i + 1) * size) =~= carried.subrange(
                j * size,
                (j + 1) * size,
            ));
        }
    }
    assert(frames_of(whole, frame_size) =~= split);
}

/// Each complete frame has the length of a frame, and the frames and the
/// rest together are the stream.
pub proof fn lemma_frames_fill(stream: Seq<u32>, frame_size: nat)
    requires
        frame_size > 0,
    ensures
        forall|i: int|
            0 <= i < frames_of(stream, frame_size).len() ==> (#[trigger] frames_of(
                stream,
                frame_size,
            )[i]).len() == frame_size,
        frames_of(stream, frame_size).len() * frame_size + rest_of(stream, frame_size).len()
            == stream.len(),
        rest_of(stream, frame_size).len() < frame_size,
{
    let size = frame_size as int;
    let len = stream.len() as int;
    let count = len / size;
    vstd::arithmetic::div_mod::lemma_fundamental_div_mod(len, size);
    vstd::arithmetic::div_mod::lemma_mod_pos_bound(len, size);
    assert(size * count == count * size) by (nonlinear_arith);
    assert forall|i: int| 0 <= i < count implies (#[trigger] frames_of(stream, frame_size)[i]).len()
        == frame_size by {
        assert(0 <= i * size && (i + 1) * size <= count * size && (i + 1) * size == i * size
            + size) by (nonlinear_arith)
            requires
                0 <= i < count,
                size > 0,
        ;
    }
}

/// The contents of two runs of frames, one after the other.
pub proof fn lemma_contents_concat(first: Seq<Vec<u32>>, second: Seq<Vec<u32>>)
    ensures
        contents(first + second) == contents(first) + contents(second),
{
    assert(contents(first + second) =~= contents(first) + contents(second));
}

/// Joining two runs of chunks, one after the other, joins their samples.
pub proof fn lemma_joined_concat(first: Seq<Seq<u32>>, second: Seq<Seq<u32>>)
    ensures
        joined(first + second) == joined(first) + joined(second),
    decreases second.len(),
{
    if second.len() == 0 {
        assert(first + second =~= first);
        assert(joined(first) + joined(second) =~= joined(first));
    } else {
        lemma_joined_concat(first, second.drop_last());
        assert((first + second).drop_last() =~= first + second.drop_last());
        assert((first + second).last() == second.last());
        assert((joined(first) + joined(second.drop_last())) + second.last() =~= joined(first) + (
        joined(second.drop_last()) + second.last()));
    }
}

/// One chunk joined is that chunk.
pub proof fn lemma_joined_one(chunk: Seq<u32>)
    ensures
        joined(seq![chunk]) == chunk,
{
    let one = seq![chunk];
    assert(one.len() == 1 && one.last() == chunk);
    assert(one.drop_last().len() == 0);
    assert(joined(one.drop_last()) =~= Seq::<u32>::empty());
    assert(joined(one) =~= chunk);
}

/// The first `count` frames of a stream, joined, are its first samples.
proof fn lemma_frames_rejoin_front(stream: Seq<u32>, frame_size: nat, count: int)
    requires
        frame_size > 0,
        0 <= count <= frames_of(stream, frame_size).len(),
    ensures
        count * frame_size <= stream.len(),
        joined(frames_of(stream, frame_size).take(count)) == stream.take(count * frame_size),
    decreases count,
{
    let size = frame_size as int;
    let frames = frames_of(stream, frame_size);
    lemma_frames_fill(stream, frame_size);
    assert(count * size <= frames.len() * size) by (nonlinear_arith)
        requires
            0 <= count <= frames.len(),
            size > 0,
    ;
    if count == 0 {
        assert(frames.take(0).len() == 0);
        assert(joined(frames.take(0)) =~= stream.take(0));
    } else {
        lemma_frames_rejoin_front(stream, frame_size, count - 1);
        let front = frames.take(count);
        let before = (count - 1) * size;
        assert(front.len() == count);
        assert(front.drop_last() =~= frames.take(count - 1));
        assert(front.last() == frames[count - 1]);
        assert(before + size == count * size && 0 <= before) by (nonlinear_arith)
            requires
                before == (count - 1) * size,
                count >= 1,
                size > 0,
        ;
        assert(frames[count - 1] == stream.subrange(before, before + size));
        assert(joined(front) == joined(frames.take(count - 1)) + frames[count - 1]);
        assert(stream.take(before) + stream.subrange(before, before + size) =~= stream.take(
            count * size,
        ));
    }
}

/// The frames of a stream, joined, and its rest are the stream.
pub proof fn lemma_frames_rejoin(stream: Seq<u32>, frame_size: nat)
    requires
        frame_size > 0,
    ensures
        joined(frames_of(stream, frame_size)) + rest_of(stream, frame_size) == stream,
{
    let frames = frames_of(stream, frame_size);
    lemma_frames_fill(stream, frame_size);
    lemma_frames_rejoin_front(stream, frame_size, frames.len() as int);
    assert(frames.take(frames.len() as int) =~= frames);
    let cut = stream.len() - stream.len() % frame_size;
    vstd::arithmetic::div_mod::lemma_fundamental_div_mod(stream.len() as int, frame_size as int);
    assert(frames.len() * frame_size == cut) by (nonlinear_arith)
        requires
            stream.len() == frame_size * (stream.len() as int / frame_size as int)
                + stream.len() % frame_size,
            frames.len() == stream.len() as int / frame_size as int,
            cut == stream.len() - stream.len() % frame_size,
    ;
    assert(stream.take(cut) + stream.skip(cut) =~= stream);
}

/// A length that lies between `count` frames and `count + 1` frames holds
/// `count` complete frames.
proof fn lemma_quotient(len: int, frame_size: int, count: int)
    requires
        frame_size > 0,
        0 <= count,
        count * frame_size <= len < count * frame_size + frame_size,
    ensures
        len / frame_size == count,
        len % frame_size == len - count * frame_size,
{
    vstd::arithmetic::div_mod::lemma_fundamental_div_mod_converse(
        len,
        frame_size,
        count,
        len - count * frame_size,
    );
}

} // verus!
