use hpsdr_emu::echo::{in_band, EchoBuffer};

#[test]
fn new_buffer_is_empty() {
    let e = EchoBuffer::new(48000);
    assert_eq!(e.sample_rate(), 48000);
    assert_eq!(e.max_duration(), 10);
    assert!(e.recorded_frequencies().is_empty());
}

#[test]
fn record_feed_stop_commits_at_tx_frequency() {
    let mut e = EchoBuffer::new(48000);
    e.start_recording(7_100_000);
    e.feed(&[(1, 2), (3, 4)]);
    e.feed(&[(5, 6)]);
    e.stop_recording();
    assert_eq!(e.recorded_frequencies(), vec![7_100_000]);
    assert_eq!(e.take_chunk(7_100_000, 3), Some(vec![(1, 2), (3, 4), (5, 6)]));
}

#[test]
fn feed_without_recording_is_ignored() {
    let mut e = EchoBuffer::new(48000);
    e.feed(&[(1, 1)]);
    e.stop_recording();
    assert!(e.recorded_frequencies().is_empty());
}

#[test]
fn zero_frequency_recording_is_discarded() {
    let mut e = EchoBuffer::new(48000);
    e.start_recording(0);
    e.feed(&[(1, 1), (2, 2)]);
    e.stop_recording();
    assert!(e.recorded_frequencies().is_empty());
}

#[test]
fn empty_recording_is_not_committed() {
    let mut e = EchoBuffer::new(48000);
    e.start_recording(7_000_000);
    e.stop_recording();
    assert!(e.recorded_frequencies().is_empty());
    assert_eq!(e.take_chunk(7_000_000, 4), None);
}

#[test]
fn recording_is_capped_at_max_duration() {
    // one sample per second for ten seconds: at most ten samples are kept
    let mut e = EchoBuffer::new(1);
    e.start_recording(3_500_000);
    let samples: Vec<(i16, i16)> = (0..25).map(|i| (i as i16, -(i as i16))).collect();
    e.feed(&samples);
    e.stop_recording();
    let chunk = e.take_chunk(3_500_000, 10).unwrap();
    assert_eq!(chunk, samples[..10].to_vec());
    // playback wraps to the start after ten samples
    assert_eq!(e.take_chunk(3_500_000, 1), Some(vec![(0, 0)]));
}

#[test]
fn restart_commits_previous_recording() {
    let mut e = EchoBuffer::new(48000);
    e.start_recording(1_000_000);
    e.feed(&[(9, 9)]);
    e.start_recording(2_000_000);
    e.feed(&[(8, 8)]);
    e.stop_recording();
    let mut f = e.recorded_frequencies();
    f.sort();
    assert_eq!(f, vec![1_000_000, 2_000_000]);
}

#[test]
fn rerecording_replaces_and_rewinds() {
    let mut e = EchoBuffer::new(48000);
    e.start_recording(5_000_000);
    e.feed(&[(1, 0), (2, 0), (3, 0)]);
    e.stop_recording();
    assert_eq!(e.take_chunk(5_000_000, 2), Some(vec![(1, 0), (2, 0)]));
    e.start_recording(5_000_000);
    e.feed(&[(7, 0), (8, 0)]);
    e.stop_recording();
    assert_eq!(e.recorded_frequencies(), vec![5_000_000]);
    assert_eq!(e.take_chunk(5_000_000, 5), Some(vec![(7, 0), (8, 0), (7, 0), (8, 0), (7, 0)]));
}

#[test]
fn playback_continues_circularly() {
    let mut e = EchoBuffer::new(48000);
    e.start_recording(14_000_000);
    e.feed(&[(1, 1), (2, 2), (3, 3)]);
    e.stop_recording();
    assert_eq!(e.take_chunk(14_000_000, 2), Some(vec![(1, 1), (2, 2)]));
    assert_eq!(e.take_chunk(14_000_000, 4), Some(vec![(3, 3), (1, 1), (2, 2), (3, 3)]));
    assert_eq!(e.take_chunk(14_000_000, 0), Some(vec![]));
    assert_eq!(e.take_chunk(14_000_001, 1), None);
}

#[test]
fn recording_length_is_min_of_fed_and_cap() {
    let mut e = EchoBuffer::new(48000);
    e.start_recording(7_074_000);
    let samples = vec![(100i16, -100i16); 4800];
    e.feed(&samples);
    e.stop_recording();
    let all = e.take_chunk(7_074_000, 4800).unwrap();
    assert_eq!(all, samples);
    assert_eq!(e.take_chunk(7_074_000, 1), Some(vec![(100, -100)]));
}

#[test]
fn band_edges() {
    assert!(in_band(7_074_000, 7_074_000, 48000));
    assert!(in_band(7_098_000, 7_074_000, 48000));
    assert!(!in_band(7_098_001, 7_074_000, 48000));
    assert!(in_band(7_050_000, 7_074_000, 48000));
    assert!(!in_band(7_049_999, 7_074_000, 48000));
}
