use replaygain::session::PERCENTILE;
use replaygain::session::REFERENCE_LOUDNESS;
use replaygain::Loudness;
use replaygain::ReplayGain;

fn patterns(samples: &[f32]) -> Vec<u32> {
    samples.iter().map(|sample| sample.to_bits()).collect()
}

fn noise(len: usize, seed: u32) -> Vec<f32> {
    let mut state = seed;
    let mut samples = Vec::with_capacity(len);
    for i in 0..len {
        state = state.wrapping_mul(1_664_525).wrapping_add(1_013_904_223);
        let unit = (state >> 8) as f32 / 16_777_216.0 - 0.5;
        let swell = 0.05 + 0.9 * ((i / 1600) % 7) as f32 / 7.0;
        samples.push(unit * swell);
    }
    samples
}

/// The mean square of a frame in hundredths of a decibel above the floor.
fn measure(frame: &[u32]) -> Vec<Loudness> {
    let mut energy = 0.0f64;
    for sample in frame {
        let value = f32::from_bits(*sample) as f64;
        energy += value * value;
    }
    if energy == 0.0 {
        return vec![Loudness::Silence];
    }
    let level = 10.0 * (energy / frame.len() as f64 + 1.0e-37).log10() + 100.0;
    vec![Loudness::CentiDecibels((100.0 * level).floor() as i64)]
}

/// Measures every frame that is due, oldest first.
fn drain(session: &mut ReplayGain, seen: &mut Vec<Vec<u32>>) {
    let frame_size = session.frame_size();
    let mut left = session.awaiting();
    while let Some(frame) = session.due_frame() {
        assert_eq!(frame.len(), frame_size);
        let frame = frame.to_vec();
        session.record_frame(&measure(&frame));
        seen.push(frame);
        left -= 1;
        assert_eq!(session.awaiting(), left);
    }
    assert_eq!(left, 0);
}

struct Run {
    frames: Vec<Vec<u32>>,
    windows: u64,
    gain: i32,
    peak: u32,
}

fn analyse(rate: usize, samples: &[f32], sizes: &[usize]) -> Run {
    let mut session = ReplayGain::new(rate).unwrap();
    let frame_size = session.frame_size();
    let stream = patterns(samples);
    let mut seen = Vec::new();
    let mut at = 0;
    let mut turn = 0;
    while at < stream.len() {
        let size = sizes[turn % sizes.len()].min(stream.len() - at);
        session.process_samples(&stream[at..at + size]);
        drain(&mut session, &mut seen);
        assert!(session.pending_len() < frame_size);
        at += size;
        turn += 1;
    }
    let last = session.final_frame();
    assert_eq!(last.len(), frame_size);
    let windows = session.windows_counted();
    let (gain, peak) = session.finish(&measure(&last));
    seen.push(last);
    Run { frames: seen, windows, gain, peak }
}

fn analyse_strict(rate: usize, samples: &[f32]) -> Run {
    let mut session = ReplayGain::new(rate).unwrap();
    let frame_size = session.frame_size();
    let stream = patterns(samples);
    assert_eq!(stream.len() % frame_size, 0);
    let mut seen = Vec::new();
    for frame in stream.chunks(frame_size) {
        assert_eq!(session.pending_len(), 0);
        session.process_frame(frame);
        assert_eq!(session.awaiting(), 1);
        assert_eq!(session.due_frame(), Some(frame));
        session.record_frame(&measure(frame));
        assert!(session.due_frame().is_none());
        seen.push(frame.to_vec());
    }
    let last = session.final_frame();
    let windows = session.windows_counted();
    let (gain, peak) = session.finish(&measure(&last));
    seen.push(last);
    Run { frames: seen, windows, gain, peak }
}

#[test]
fn the_constants_of_the_analysis() {
    assert_eq!(REFERENCE_LOUDNESS, 6454);
    assert_eq!(PERCENTILE, 95);
}

#[test]
fn a_new_session_has_taken_nothing() {
    let session = ReplayGain::new(44100).unwrap();
    assert_eq!(session.sample_rate(), 44100);
    assert_eq!(session.pending_len(), 0);
    assert_eq!(session.awaiting(), 0);
    assert!(session.due_frame().is_none());
    assert_eq!(session.windows_counted(), 0);
    assert_eq!(session.peak(), 0);
    assert_eq!(session.final_frame(), vec![0u32; 4410]);
}

#[test]
fn silence_of_any_length() {
    for len in [0usize, 1, 2, 799, 800, 801, 1600, 4001] {
        let run = analyse(8000, &vec![0.0f32; len], &[333]);
        assert_eq!(run.gain, 6454, "length {}", len);
        assert_eq!(run.peak, 0, "length {}", len);
        assert_eq!(f32::from_bits(run.peak), 0.0);
    }
}

#[test]
fn silence_gives_the_gain_of_a_session_that_counted_nothing() {
    let session = ReplayGain::new(8000).unwrap();
    let nothing = replaygain::histogram::Histogram::new();
    let sentinel = nothing.percentile_gain(REFERENCE_LOUDNESS, PERCENTILE);
    assert_eq!(sentinel, 6454);
    let (gain, peak) = session.finish(&[Loudness::Silence]);
    assert_eq!(gain as i64, sentinel);
    assert_eq!(peak, 0);
}

#[test]
fn negative_zeros_are_silence_too() {
    let run = analyse(8000, &vec![-0.0f32; 1000], &[1000]);
    assert_eq!(run.gain, 6454);
    assert_eq!(run.peak, 0);
}

#[test]
fn full_scale_impulse_gives_peak_one() {
    for at in [0usize, 1, 799, 800, 4409, 4410, 9999] {
        let mut samples = vec![0.0f32; 10000];
        samples[at] = 1.0;
        let run = analyse(44100, &samples, &[4410]);
        assert_eq!(run.peak, 0x3F80_0000, "impulse at {}", at);
        assert_eq!(f32::from_bits(run.peak), 1.0);
        samples[at] = -1.0;
        let run = analyse(44100, &samples, &[977]);
        assert_eq!(run.peak, 0x3F80_0000, "impulse at {}", at);
    }
}

#[test]
fn an_impulse_in_the_pending_tail_counts() {
    let mut session = ReplayGain::new(8000).unwrap();
    session.process_samples(&patterns(&[0.0, 0.0, -1.0]));
    assert_eq!(session.awaiting(), 0);
    assert_eq!(session.peak(), 0);
    let last = session.final_frame();
    assert_eq!(last[..3], patterns(&[0.0, 0.0, -1.0])[..]);
    assert!(last[3..].iter().all(|sample| *sample == 0));
    let (_, peak) = session.finish(&measure(&last));
    assert_eq!(peak, 0x3F80_0000);
}

#[test]
fn chunking_invariance() {
    let samples = noise(20_003, 7);
    let whole = analyse(8000, &samples, &[samples.len()]);
    assert_eq!(whole.frames.len(), 26);
    assert_eq!(whole.windows, 25);
    for sizes in [
        vec![1],
        vec![2],
        vec![3],
        vec![799],
        vec![800],
        vec![801],
        vec![1600],
        vec![7, 1300, 64],
        vec![1, 20_002],
        vec![20_002, 1],
        vec![10_000, 10_003],
        vec![4096],
    ] {
        let run = analyse(8000, &samples, &sizes);
        assert_eq!(run.frames, whole.frames, "chunks {:?}", sizes);
        assert_eq!(run.windows, whole.windows, "chunks {:?}", sizes);
        assert_eq!(run.gain, whole.gain, "chunks {:?}", sizes);
        assert_eq!(run.peak, whole.peak, "chunks {:?}", sizes);
    }
    assert!(whole.gain > 6454 - 12000 && whole.gain < 6454);
}

#[test]
fn strict_frames_agree_with_buffered_chunks() {
    let samples = noise(22050 / 20 * 2 * 9, 11);
    let strict = analyse_strict(22050, &samples);
    assert_eq!(strict.windows, 9);
    for sizes in [vec![samples.len()], vec![2204], vec![2205], vec![1], vec![5000, 3]] {
        let run = analyse(22050, &samples, &sizes);
        assert_eq!(run.frames, strict.frames, "chunks {:?}", sizes);
        assert_eq!(run.gain, strict.gain, "chunks {:?}", sizes);
        assert_eq!(run.peak, strict.peak, "chunks {:?}", sizes);
    }
}

#[test]
fn frames_fall_due_in_order() {
    let mut session = ReplayGain::new(8000).unwrap();
    let stream: Vec<u32> = (0..2000u32).collect();
    session.process_samples(&stream[..300]);
    assert!(session.due_frame().is_none());
    assert_eq!(session.pending_len(), 300);
    session.process_samples(&stream[300..]);
    assert_eq!(session.pending_len(), 400);
    assert_eq!(session.awaiting(), 2);
    assert_eq!(session.due_frame(), Some(&stream[..800]));
    session.record_frame(&[Loudness::Silence]);
    assert_eq!(session.awaiting(), 1);
    assert_eq!(session.due_frame(), Some(&stream[800..1600]));
    session.record_frame(&[Loudness::Silence]);
    assert!(session.due_frame().is_none());
    let last = session.final_frame();
    assert_eq!(last[..400], stream[1600..]);
    assert_eq!(last[400..], [0u32; 400]);
}

#[test]
fn an_odd_number_of_samples_is_taken() {
    let mut session = ReplayGain::new(8000).unwrap();
    session.process_samples(&patterns(&[0.5]));
    assert_eq!(session.pending_len(), 1);
    session.process_samples(&patterns(&[0.25, -0.75, 0.125]));
    assert_eq!(session.pending_len(), 4);
    assert_eq!(session.awaiting(), 0);
    assert_eq!(session.peak(), 0);
    let last = session.final_frame();
    let (_, peak) = session.finish(&measure(&last));
    assert_eq!(peak, 0.75f32.to_bits());
}

#[test]
fn an_empty_chunk_leaves_the_session_as_it_is() {
    let mut session = ReplayGain::new(8000).unwrap();
    session.process_samples(&[]);
    assert_eq!(session.pending_len(), 0);
    assert_eq!(session.peak(), 0);
    assert_eq!(session.awaiting(), 0);
}

#[test]
fn histogram_total_after_whole_frames() {
    for rate in [8000usize, 11025, 44100, 192000] {
        for count in [0usize, 1, 2, 5] {
            let mut session = ReplayGain::new(rate).unwrap();
            let frame_size = session.frame_size();
            let per_frame = frame_size / session.window_size();
            let samples = patterns(&noise(frame_size * count, 3));
            session.process_samples(&samples);
            assert_eq!(session.awaiting(), count);
            let mut seen = Vec::new();
            drain(&mut session, &mut seen);
            assert_eq!(seen.len(), count);
            assert_eq!(session.pending_len(), 0);
            assert_eq!(session.windows_counted(), (count * per_frame) as u64);
        }
    }
}

#[test]
fn the_strict_entry_counts_one_frame() {
    let mut session = ReplayGain::new(12000).unwrap();
    let frame = patterns(&noise(1200, 5));
    session.process_frame(&frame);
    assert_eq!(session.awaiting(), 1);
    assert_eq!(session.pending_len(), 0);
    session.record_frame(&[Loudness::CentiDecibels(7000)]);
    assert_eq!(session.awaiting(), 0);
    assert_eq!(session.windows_counted(), 1);
}

fn gain_of_constant_loudness(level: i64) -> i32 {
    let mut session = ReplayGain::new(8000).unwrap();
    let frame = patterns(&noise(800, 1));
    for _ in 0..10 {
        session.process_frame(&frame);
        session.record_frame(&[Loudness::CentiDecibels(level)]);
    }
    session.finish(&[Loudness::CentiDecibels(level)]).0
}

#[test]
fn the_gain_brings_the_percentile_to_the_reference() {
    assert_eq!(gain_of_constant_loudness(7000), -546);
    assert_eq!(gain_of_constant_loudness(6454), 0);
    assert_eq!(gain_of_constant_loudness(100), 6354);
    assert_eq!(gain_of_constant_loudness(8854), -2400);
    assert_eq!(gain_of_constant_loudness(8855), -2401);
    assert_eq!(gain_of_constant_loudness(55), 6399);
    assert_eq!(gain_of_constant_loudness(54), 6400);
}

#[test]
fn the_gain_is_held_to_no_range_but_that_of_the_bins() {
    assert_eq!(gain_of_constant_loudness(8954), -2500);
    assert_eq!(gain_of_constant_loudness(11999), -5545);
    assert_eq!(gain_of_constant_loudness(1_000_000), -5545);
    assert_eq!(gain_of_constant_loudness(53), 6401);
    assert_eq!(gain_of_constant_loudness(0), 6454);
    assert_eq!(gain_of_constant_loudness(-37000), 6454);
}

#[test]
fn one_window_at_the_top_of_the_range() {
    let session = ReplayGain::new(8000).unwrap();
    let (gain, peak) = session.finish(&[Loudness::CentiDecibels(11999)]);
    assert_eq!(gain, -5545);
    assert_eq!(peak, 0);
}

#[test]
fn a_chunk_that_completes_no_frame_leaves_the_peak() {
    let mut session = ReplayGain::new(8000).unwrap();
    session.process_samples(&patterns(&[1.0]));
    assert_eq!(session.peak(), 0);
    assert_eq!(session.pending_len(), 1);
    assert_eq!(session.awaiting(), 0);
    assert_eq!(session.windows_counted(), 0);
    session.process_samples(&patterns(&vec![0.25; 798]));
    assert_eq!(session.peak(), 0);
    assert_eq!(session.pending_len(), 799);
    session.process_samples(&patterns(&[0.5]));
    assert_eq!(session.peak(), 0x3F80_0000);
    assert_eq!(session.pending_len(), 0);
    assert_eq!(session.awaiting(), 1);
}

#[test]
fn the_peak_is_that_of_the_completed_frames() {
    let mut session = ReplayGain::new(8000).unwrap();
    let mut samples = vec![0.125f32; 1000];
    samples[799] = -0.5;
    samples[800] = 0.75;
    session.process_samples(&patterns(&samples));
    assert_eq!(session.peak(), 0.5f32.to_bits());
    assert_eq!(session.pending_len(), 200);
    session.record_frame(&[Loudness::CentiDecibels(7000)]);
    assert_eq!(session.peak(), 0.5f32.to_bits());
    let last = session.final_frame();
    let (_, peak) = session.finish(&measure(&last));
    assert_eq!(peak, 0.75f32.to_bits());
}

#[test]
fn the_strict_entry_raises_the_peak_at_once() {
    let mut session = ReplayGain::new(8000).unwrap();
    let mut frame = vec![0.0f32; 800];
    frame[3] = -0.25;
    session.process_frame(&patterns(&frame));
    assert_eq!(session.peak(), 0.25f32.to_bits());
}

#[test]
fn the_final_frame_is_measured_too() {
    let mut session = ReplayGain::new(8000).unwrap();
    session.process_samples(&patterns(&noise(100, 1)));
    assert_eq!(session.awaiting(), 0);
    let (gain, _) = session.finish(&[Loudness::CentiDecibels(6000)]);
    assert_eq!(gain, 454);
}

#[test]
fn the_loudest_twentieth_of_the_frames_decides() {
    let mut session = ReplayGain::new(8000).unwrap();
    let frame = patterns(&noise(800, 1));
    for _ in 0..19 {
        session.process_frame(&frame);
        session.record_frame(&[Loudness::CentiDecibels(5000)]);
    }
    let (gain, _) = session.finish(&[Loudness::CentiDecibels(8000)]);
    assert_eq!(gain, -1546);

    let mut session = ReplayGain::new(8000).unwrap();
    for _ in 0..20 {
        session.process_frame(&frame);
        session.record_frame(&[Loudness::CentiDecibels(5000)]);
    }
    let (gain, _) = session.finish(&[Loudness::CentiDecibels(8000)]);
    assert_eq!(gain, 1454);
}

#[test]
fn measurements_may_come_in_late() {
    let samples = patterns(&noise(5000, 21));
    let mut early = ReplayGain::new(8000).unwrap();
    let mut late = ReplayGain::new(8000).unwrap();
    let mut seen = Vec::new();
    for chunk in samples.chunks(450) {
        early.process_samples(chunk);
        drain(&mut early, &mut seen);
        late.process_samples(chunk);
    }
    assert_eq!(late.awaiting(), 6);
    let mut held = Vec::new();
    drain(&mut late, &mut held);
    assert_eq!(held, seen);
    assert_eq!(early.final_frame(), late.final_frame());
    assert_eq!(early.windows_counted(), late.windows_counted());
    let last = measure(&early.final_frame());
    assert_eq!(early.finish(&last), late.finish(&last));
}

#[test]
fn both_entries_may_take_turns_on_frame_boundaries() {
    let samples = patterns(&noise(800 * 4, 8));
    let mut mixed = ReplayGain::new(8000).unwrap();
    let mut seen = Vec::new();
    mixed.process_frame(&samples[..800]);
    drain(&mut mixed, &mut seen);
    mixed.process_samples(&samples[800..1000]);
    mixed.process_samples(&samples[1000..2400]);
    drain(&mut mixed, &mut seen);
    assert_eq!(mixed.pending_len(), 0);
    mixed.process_frame(&samples[2400..]);
    drain(&mut mixed, &mut seen);
    let last = mixed.final_frame();
    let mixed = mixed.finish(&measure(&last));

    let floats: Vec<f32> = samples.iter().map(|sample| f32::from_bits(*sample)).collect();
    let whole = analyse(8000, &floats, &[floats.len()]);
    assert_eq!(seen[..], whole.frames[..4]);
    assert_eq!(mixed, (whole.gain, whole.peak));
}
