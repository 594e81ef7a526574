//! The sample rates that can be analysed, and what each of them fixes.

use vstd::prelude::*;

verus! {

/// Frames per second: a frame spans a twentieth of a second.
pub const FRAMES_PER_SECOND: usize = 20;

/// Channels of the interleaved stream: left and right.
pub const CHANNELS: usize = 2;

/// Whether `rate`, in Hz, is one of the rates that can be analysed.
pub open spec fn is_supported(rate: usize) -> bool {
    ||| rate == 8000
    ||| rate == 11025
    ||| rate == 12000
    ||| rate == 16000
    ||| rate == 18900
    ||| rate == 22050
    ||| rate == 24000
    ||| rate == 32000
    ||| rate == 37800
    ||| rate == 44100
    ||| rate == 48000
    ||| rate == 56000
    ||| rate == 64000
    ||| rate == 88200
    ||| rate == 96000
    ||| rate == 112000
    ||| rate == 128000
    ||| rate == 144000
    ||| rate == 176400
    ||| rate == 192000
}

/// What a sample rate fixes for the analysis. Lengths count stereo pairs.
#[derive(Clone, Copy, Debug, PartialEq, Eq)]
pub struct SampleRateProfile {
    /// The nominal rate in Hz.
    pub rate: usize,
    /// The length of a frame.
    pub frame_len: usize,
    /// The length of a window, over which one loudness value is measured.
    pub window_len: usize,
}

/// The profile of `rate`. A frame is measured as one window.
pub open spec fn profile_of(rate: usize) -> Option<SampleRateProfile> {
    if is_supported(rate) {
        Some(
            SampleRateProfile {
                rate,
                frame_len: rate / FRAMES_PER_SECOND,
                window_len: rate / FRAMES_PER_SECOND,
            },
        )
    } else {
        None
    }
}

impl SampleRateProfile {
    /// The rate is supported, a frame spans a twentieth of a second, and
    /// windows divide a frame evenly.
    pub open spec fn wf(&self) -> bool {
        &&& is_supported(self.rate)
        &&& self.frame_len == self.rate / FRAMES_PER_SECOND
        &&& self.window_len > 0
        &&& self.frame_len % self.window_len == 0
    }

    /// The number of interleaved samples in one frame.
    pub open spec fn frame_samples(&self) -> nat {
        (self.rate / FRAMES_PER_SECOND * CHANNELS) as nat
    }

    /// The number of interleaved samples in one window.
    pub open spec fn window_samples(&self) -> nat {
        (self.window_len * CHANNELS) as nat
    }

    /// The number of windows in one frame.
    pub open spec fn windows(&self) -> nat {
        (self.frame_len / self.window_len) as nat
    }

    /// The number of interleaved samples in one frame.
    pub fn frame_size(&self) -> (size: usize)
        requires
            self.wf(),
        ensures
            size == self.frame_samples(),
            size == self.rate / 20 * 2,
            size > 0,
    {
        self.frame_len * CHANNELS
    }

    /// The number of interleaved samples in one window.
    pub fn window_size(&self) -> (size: usize)
        requires
            self.wf(),
        ensures
            size == self.window_samples(),
            size > 0,
            self.frame_samples() == self.windows() * size,
    {
        proof {
            self.lemma_windows();
        }
        self.window_len * CHANNELS
    }

    /// The number of windows in one frame.
    pub fn windows_per_frame(&self) -> (count: usize)
        requires
            self.wf(),
        ensures
            count == self.windows(),
            count > 0,
    {
        proof {
            self.lemma_windows();
        }
        self.frame_len / self.window_len
    }

    /// A frame holds a whole number of windows, and at least one: the
    /// number of windows is the frame size divided by the window size.
    pub proof fn lemma_windows(&self)
        requires
            self.wf(),
        ensures
            self.windows() > 0,
            self.window_len <= self.frame_len,
            self.frame_samples() == self.windows() * self.window_samples(),
            self.windows() == self.frame_samples() / self.window_samples(),
            self.frame_samples() >= 800,
            self.frame_samples() <= 19200,
    {
        let frame = self.frame_len as int;
        let window = self.window_len as int;
        assert(frame >= 400);
        vstd::arithmetic::div_mod::lemma_fundamental_div_mod(frame, window);
        assert(frame == window * (frame / window));
        assert(frame / window > 0 && window <= frame) by (nonlinear_arith)
            requires
                frame == window * (frame / window),
                frame > 0,
                window > 0,
        ;
        assert((frame / window) * (window * 2) == frame * 2) by (nonlinear_arith)
            requires
                frame == window * (frame / window),
        ;
        vstd::arithmetic::div_mod::lemma_div_multiples_vanish(frame / window, window * 2);
    }
}

/// Looks up the profile of a sample rate. Only the supported rates have
/// one; no other rate is matched to a rate near it.
pub fn lookup(rate: usize) -> (profile: Option<SampleRateProfile>)
    ensures
        profile == profile_of(rate),
        profile is Some <==> is_supported(rate),
        profile is Some ==> profile->Some_0.wf() && profile->Some_0.windows() == 1,
{
    match rate {
        8000 | 11025 | 12000 | 16000 | 18900 | 22050 | 24000 | 32000 | 37800 | 44100 | 48000
        | 56000 | 64000 | 88200 | 96000 | 112000 | 128000 | 144000 | 176400 | 192000 => {
            let frame_len = rate / FRAMES_PER_SECOND;
            assert(frame_len % frame_len == 0 && frame_len / frame_len == 1)
                by (nonlinear_arith)
                requires
                    frame_len > 0,
            ;
            Some(SampleRateProfile { rate, frame_len, window_len: frame_len })
        },
        _ => None,
    }
}

} // verus!
