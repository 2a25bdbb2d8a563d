use voice::config::{FRAME_LEN, HOP_LEN, MEL_BINS, TIME_FRAMES, TRAINING_SAMPLE_RATE, WINDOW_SAMPLES};
use voice::framing::{analysis_windows, fft_size, frame_count, frame_spans, spectrum_bins};

#[test]
fn input_geometry_constants() {
    assert_eq!(TIME_FRAMES, 186);
    assert_eq!(WINDOW_SAMPLES, 2 * TRAINING_SAMPLE_RATE as usize);
    assert_eq!(MEL_BINS * TIME_FRAMES, 14880);
    assert_eq!(frame_count(WINDOW_SAMPLES, FRAME_LEN, HOP_LEN), TIME_FRAMES);
}

#[test]
fn fft_size_is_next_power_of_two() {
    assert_eq!(fft_size(0), 1);
    assert_eq!(fft_size(1), 1);
    assert_eq!(fft_size(3), 4);
    assert_eq!(fft_size(513), 1024);
    assert_eq!(fft_size(1000), 1024);
    assert_eq!(fft_size(1024), 1024);
    assert_eq!(fft_size(1025), 2048);
}

#[test]
fn spectrum_bins_of_fft() {
    assert_eq!(spectrum_bins(1024), 513);
    assert_eq!(spectrum_bins(1), 1);
}

#[test]
fn frame_count_cases() {
    assert_eq!(frame_count(0, 1024, 512), 0);
    assert_eq!(frame_count(100, 0, 512), 0);
    assert_eq!(frame_count(100, 1024, 0), 0);
    assert_eq!(frame_count(500, 1024, 512), 1);
    assert_eq!(frame_count(1024, 1024, 512), 1);
    assert_eq!(frame_count(1535, 1024, 512), 1);
    assert_eq!(frame_count(1536, 1024, 512), 2);
}

#[test]
fn frame_spans_cover_audio() {
    assert_eq!(frame_spans(1600, 1024, 512), vec![(0, 1024), (512, 1536)]);
    assert_eq!(frame_spans(500, 1024, 512), vec![(0, 500)]);
    assert_eq!(frame_spans(0, 1024, 512), Vec::<(usize, usize)>::new());
    let spans = frame_spans(WINDOW_SAMPLES, FRAME_LEN, HOP_LEN);
    assert_eq!(spans.len(), TIME_FRAMES);
    assert_eq!(spans[185], (185 * 512, 185 * 512 + 1024));
    for w in spans.windows(2) {
        assert_eq!(w[1].0, w[0].0 + HOP_LEN);
    }
}

#[test]
fn analysis_windows_drop_partial_tail() {
    assert_eq!(analysis_windows(10, 3), vec![(0, 3), (3, 6), (6, 9)]);
    assert_eq!(analysis_windows(9, 3), vec![(0, 3), (3, 6), (6, 9)]);
    assert_eq!(analysis_windows(2, 3), Vec::<(usize, usize)>::new());
    assert_eq!(analysis_windows(10, 0), Vec::<(usize, usize)>::new());
    assert_eq!(analysis_windows(192000, 96000).len(), 2);
}
