use replaygain::histogram::bin;
use replaygain::histogram::Histogram;
use replaygain::histogram::SLOTS;
use replaygain::Loudness;

fn filled(levels: &[i64]) -> Histogram {
    let mut histogram = Histogram::new();
    for level in levels {
        histogram.record(Loudness::CentiDecibels(*level));
    }
    histogram
}

#[test]
fn a_new_histogram_counts_nothing() {
    let histogram = Histogram::new();
    assert_eq!(histogram.total(), 0);
    for slot in 0..SLOTS {
        assert_eq!(histogram.count(slot), 0);
    }
}

#[test]
fn there_are_twelve_thousand_bins() {
    assert_eq!(SLOTS, 12000);
}

#[test]
fn a_measurement_falls_into_its_bin() {
    assert_eq!(bin(Loudness::CentiDecibels(0)), 0);
    assert_eq!(bin(Loudness::CentiDecibels(1)), 1);
    assert_eq!(bin(Loudness::CentiDecibels(6454)), 6454);
    assert_eq!(bin(Loudness::CentiDecibels(11999)), 11999);
}

#[test]
fn a_measurement_out_of_range_falls_into_the_nearest_bin() {
    assert_eq!(bin(Loudness::CentiDecibels(-1)), 0);
    assert_eq!(bin(Loudness::CentiDecibels(-37000)), 0);
    assert_eq!(bin(Loudness::CentiDecibels(i64::MIN)), 0);
    assert_eq!(bin(Loudness::CentiDecibels(12000)), 11999);
    assert_eq!(bin(Loudness::CentiDecibels(i64::MAX)), 11999);
}

#[test]
fn silence_falls_into_the_floor_bin() {
    assert_eq!(bin(Loudness::Silence), 0);
    let mut histogram = Histogram::new();
    histogram.record(Loudness::Silence);
    assert_eq!(histogram.count(0), 1);
    assert_eq!(histogram.total(), 1);
}

#[test]
fn each_measurement_is_counted_once() {
    let mut histogram = Histogram::new();
    histogram.record(Loudness::CentiDecibels(500));
    histogram.record(Loudness::CentiDecibels(500));
    histogram.record(Loudness::CentiDecibels(-5));
    histogram.record(Loudness::CentiDecibels(20000));
    histogram.record(Loudness::Silence);
    assert_eq!(histogram.count(500), 2);
    assert_eq!(histogram.count(0), 2);
    assert_eq!(histogram.count(11999), 1);
    assert_eq!(histogram.count(499), 0);
    assert_eq!(histogram.total(), 5);
    let sum: u64 = (0..SLOTS).map(|slot| histogram.count(slot)).sum();
    assert_eq!(sum, 5);
}

#[test]
fn record_all_counts_in_order() {
    let mut histogram = Histogram::new();
    histogram.record_all(&[
        Loudness::CentiDecibels(3),
        Loudness::Silence,
        Loudness::CentiDecibels(3),
    ]);
    assert_eq!(histogram.count(3), 2);
    assert_eq!(histogram.count(0), 1);
    assert_eq!(histogram.total(), 3);
    histogram.record_all(&[]);
    assert_eq!(histogram.total(), 3);
}

#[test]
fn nothing_counted_gives_the_floor_bin_and_the_reference() {
    let histogram = Histogram::new();
    for percent in [0u8, 1, 50, 95, 99, 100, 255] {
        assert_eq!(histogram.percentile_bin(percent), 0);
        assert_eq!(histogram.percentile_gain(6454, percent), 6454);
    }
    assert_eq!(histogram.percentile_gain(-100, 95), -100);
}

#[test]
fn one_measurement_is_every_percentile_below_the_hundredth() {
    let histogram = filled(&[7000]);
    for percent in [0u8, 1, 50, 95, 99] {
        assert_eq!(histogram.percentile_bin(percent), 7000);
    }
    assert_eq!(histogram.percentile_gain(6454, 95), -546);
}

#[test]
fn percentile_of_a_hundred_distinct_levels() {
    let levels: Vec<i64> = (1..=100).collect();
    let histogram = filled(&levels);
    assert_eq!(histogram.percentile_bin(95), 96);
    assert_eq!(histogram.percentile_gain(6454, 95), 6358);
    assert_eq!(histogram.percentile_bin(50), 51);
    assert_eq!(histogram.percentile_bin(99), 100);
    assert_eq!(histogram.percentile_bin(0), 1);
}

#[test]
fn the_loudest_twentieth_decides() {
    let mut levels = vec![1000i64; 19];
    levels.push(5000);
    let histogram = filled(&levels);
    assert_eq!(histogram.percentile_bin(95), 5000);
    assert_eq!(histogram.percentile_gain(6454, 95), 1454);

    let mut levels = vec![1000i64; 20];
    levels.push(5000);
    let histogram = filled(&levels);
    assert_eq!(histogram.percentile_bin(95), 1000);
    assert_eq!(histogram.percentile_gain(6454, 95), 5454);
}

#[test]
fn the_order_of_measurements_does_not_matter() {
    let forward: Vec<i64> = (0..500).map(|i| (i * 37) % 9000).collect();
    let mut backward = forward.clone();
    backward.reverse();
    let first = filled(&forward);
    let second = filled(&backward);
    for percent in [5u8, 50, 95] {
        assert_eq!(first.percentile_bin(percent), second.percentile_bin(percent));
    }
}

#[test]
fn the_hundredth_percentile_is_the_top_of_the_range() {
    let histogram = filled(&[10, 20, 30]);
    assert_eq!(histogram.percentile_bin(100), 11999);
    assert_eq!(histogram.percentile_bin(200), 11999);
    assert_eq!(histogram.percentile_gain(6454, 100), -5545);
}

#[test]
fn all_windows_in_the_floor_bin_give_the_reference() {
    let mut histogram = Histogram::new();
    for _ in 0..50 {
        histogram.record(Loudness::Silence);
    }
    assert_eq!(histogram.percentile_bin(95), 0);
    assert_eq!(histogram.percentile_gain(6454, 95), 6454);
}

#[test]
fn the_gain_is_the_reference_less_the_percentile() {
    let histogram = filled(&[8954]);
    assert_eq!(histogram.percentile_gain(6454, 95), -2500);
    assert_eq!(histogram.percentile_gain(0, 95), -8954);
    assert_eq!(histogram.percentile_gain(i32::MAX, 95), i32::MAX as i64 - 8954);
    assert_eq!(histogram.percentile_gain(i32::MIN, 95), i32::MIN as i64 - 8954);
}
