use mp4_audio_extractor::frames::{
    autocorrelation_pairs, frame_bounds, frame_count, pitch_lag_range, spectrogram_bin_indices,
    waveform_chunks,
};

#[test]
fn frame_count_of_one_second() {
    assert_eq!(frame_count(16000, 1024, 512), 30);
}

#[test]
fn frame_count_exactly_one_window() {
    assert_eq!(frame_count(1024, 1024, 512), 1);
}

#[test]
fn frame_count_short_signal() {
    assert_eq!(frame_count(1023, 1024, 512), 0);
    assert_eq!(frame_count(0, 1024, 512), 0);
}

#[test]
fn frame_count_short_signal_zero_hop() {
    assert_eq!(frame_count(10, 1024, 0), 0);
}

#[test]
fn frames_fill_the_signal() {
    let len = 16000;
    let n = frame_count(len, 1024, 512);
    for w in 0..n {
        let (start, end) = frame_bounds(w, len, 1024, 512);
        assert_eq!(start, w * 512);
        assert_eq!(end, start + 1024);
        assert!(end <= len);
    }
    assert!(n * 512 + 1024 > len);
}

#[test]
fn last_frame_bounds() {
    assert_eq!(frame_bounds(29, 16000, 1024, 512), (14848, 15872));
}

#[test]
fn spectrogram_bins_are_spread_evenly() {
    let bins = spectrogram_bin_indices(512, 128);
    assert_eq!(bins.len(), 128);
    assert_eq!(bins[0], 0);
    assert_eq!(bins[1], 4);
    assert_eq!(bins[127], 508);
    for i in 1..bins.len() {
        assert!(bins[i - 1] <= bins[i]);
    }
}

#[test]
fn spectrogram_bins_clamped_to_last() {
    assert_eq!(spectrogram_bin_indices(2, 4), vec![0, 0, 1, 1]);
    assert_eq!(spectrogram_bin_indices(1, 3), vec![0, 0, 0]);
}

#[test]
fn spectrogram_without_rows() {
    assert_eq!(spectrogram_bin_indices(0, 0), Vec::<usize>::new());
}

#[test]
fn pitch_lags_at_16k() {
    assert_eq!(pitch_lag_range(16000), (32, 320));
}

#[test]
fn pitch_lags_round_down() {
    assert_eq!(pitch_lag_range(44100), (88, 882));
    assert_eq!(pitch_lag_range(0), (0, 0));
}

#[test]
fn autocorrelation_pair_count() {
    assert_eq!(autocorrelation_pairs(1024, 320), 704);
    assert_eq!(autocorrelation_pairs(5, 5), 0);
}

#[test]
fn waveform_chunks_round_up() {
    assert_eq!(waveform_chunks(10, 3), vec![(0, 4), (4, 8), (8, 10)]);
}

#[test]
fn waveform_chunks_past_the_end_are_empty() {
    let chunks = waveform_chunks(3, 5);
    assert_eq!(chunks, vec![(0, 1), (1, 2), (2, 3), (3, 3), (4, 3)]);
    assert!(chunks[3].0 >= chunks[3].1);
    assert!(chunks[4].0 >= chunks[4].1);
}

#[test]
fn waveform_chunks_of_empty_signal() {
    assert!(waveform_chunks(0, 1200).is_empty());
}

#[test]
fn waveform_chunks_without_points() {
    assert!(waveform_chunks(100, 0).is_empty());
}

#[test]
fn waveform_chunks_cover_every_sample() {
    let len = 48001;
    let chunks = waveform_chunks(len, 1200);
    assert_eq!(chunks.len(), 1200);
    let mut covered = 0;
    for (i, &(s, e)) in chunks.iter().enumerate() {
        if s < e {
            assert_eq!(s, covered);
            covered = e;
        }
        if i + 1 < chunks.len() {
            assert!(e <= chunks[i + 1].0);
        }
    }
    assert_eq!(covered, len);
}
