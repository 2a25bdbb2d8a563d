use vstd::prelude::*;

verus! {

/// Sample rate that all audio is resampled to before feature extraction.
pub const TRAINING_SAMPLE_RATE: u32 = 48000;

/// FFT frame length (samples).
pub const FRAME_LEN: usize = 1024;

/// Hop length between frames (samples).
pub const HOP_LEN: usize = 512;

/// Number of mel bins of every spectrogram.
pub const MEL_BINS: usize = 80;

/// Samples in one analysis window: two seconds at the training sample rate.
pub const WINDOW_SAMPLES: usize = 96000;

/// Fixed number of time frames of the network input.
pub const TIME_FRAMES: usize = 1 + (WINDOW_SAMPLES - FRAME_LEN) / HOP_LEN;

/// Number of examples per training batch.
pub const BATCH_SIZE: usize = 256;

/// Maximum number of training epochs.
pub const EPOCHS: usize = 120;

/// Epochs without validation improvement before training stops.
pub const PATIENCE: usize = 120;

/// Seed of the random generator used to balance and shuffle the training set.
pub const SHUFFLE_SEED: u64 = 42;

/// The fixed input geometry: a two-second window at the training rate,
/// 186 frames of 1024 samples with a 512-sample hop.
pub proof fn lemma_input_geometry()
    ensures
        WINDOW_SAMPLES == 2 * TRAINING_SAMPLE_RATE,
        TIME_FRAMES == 186,
        MEL_BINS * TIME_FRAMES == 14880,
{
}

} // verus!
