//! Loudness analysis for stereo audio: frame assembly, peak tracking and the
//! histogram statistics from which a normalisation gain is derived.
//!
//! Samples are handled as IEEE-754 binary32 bit patterns, so that every rule
//! of the analysis is stated over integers. The floating-point measurement of
//! a frame's loudness is left to the caller.
//!
//! A [`ReplayGain`] session takes the interleaved samples of a stream in
//! chunks of any length. Each frame that the chunks complete falls due for
//! measurement: the caller reads it with `due_frame`, measures the loudness
//! of its windows, and hands that in with `record_frame`. At the end of the
//! stream the caller measures `final_frame` and calls `finish`, which gives
//! the gain and the peak.
//!
//! The module [`model`] states what a session is over sequences, and proves
//! what holds of every run: that neither the lengths of the chunks nor the
//! moment of a measurement changes the outcome, that the peak never falls,
//! and that each measured frame is counted once for each of its windows.

pub mod assembler;
pub mod histogram;
pub mod model;
pub mod peak;
pub mod rates;
pub mod session;

pub use histogram::Loudness;
pub use session::ReplayGain;
