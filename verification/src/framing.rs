use vstd::prelude::*;
use crate::config::{FRAME_LEN, HOP_LEN, TIME_FRAMES, WINDOW_SAMPLES};

verus! {

/// Whether `n` is a power of two.
pub open spec fn is_power_of_two(n: nat) -> bool
    decreases n,
{
    if n == 1 {
        true
    } else if n < 2 || n % 2 != 0 {
        false
    } else {
        is_power_of_two(n / 2)
    }
}

/// The smallest power of two that is at least `n` (1 for 0 and 1).
pub open spec fn is_next_power_of_two(n: nat, p: nat) -> bool {
    &&& is_power_of_two(p)
    &&& n <= p
    &&& (p == 1 || p / 2 < n)
}

/// The FFT length used for frames of `frame_len` samples: the next power of two.
pub fn fft_size(frame_len: usize) -> (r: usize)
    requires
        frame_len <= usize::MAX / 2 + 1,
    ensures
        is_next_power_of_two(frame_len as nat, r as nat),
{
    let target = frame_len as u128;
    let mut p: u128 = 1;
    while p < target
        invariant
            target == frame_len as u128,
            p >= 1,
            is_power_of_two(p as nat),
            p == 1 || p / 2 < frame_len,
            frame_len <= usize::MAX / 2 + 1,
        decreases 2 * target - p,
    {
        assert(is_power_of_two((p * 2) as nat)) by {
            assert((p * 2) as nat / 2 == p as nat);
        }
        p = p * 2;
    }
    assert(p == 1 || p % 2 == 0);
    assert(p <= usize::MAX);
    p as usize
}

/// Number of spectrum bins kept from an FFT of length `n_fft`.
pub open spec fn spectrum_len(n_fft: nat) -> nat {
    n_fft / 2 + 1
}

/// Number of spectrum bins kept from an FFT of length `n_fft`.
pub fn spectrum_bins(n_fft: usize) -> (r: usize)
    ensures
        r == spectrum_len(n_fft as nat),
{
    n_fft / 2 + 1
}

/// Number of frames of a spectrogram of `n_samples` samples: none when the
/// audio is empty or a length is zero, one when the audio is shorter than a
/// frame, else one per hop that still leaves a whole frame.
pub open spec fn frame_total(n_samples: nat, frame_len: nat, hop_len: nat) -> nat {
    if n_samples == 0 || frame_len == 0 || hop_len == 0 {
        0
    } else if n_samples < frame_len {
        1
    } else {
        1 + ((n_samples - frame_len) as nat) / hop_len
    }
}

/// The samples `[start, end)` read by frame `i`.
pub open spec fn frame_range(n_samples: nat, frame_len: nat, hop_len: nat, i: nat) -> (nat, nat) {
    let start = i * hop_len;
    let end = if start + frame_len <= n_samples { start + frame_len } else { n_samples };
    (start, end)
}

/// Number of frames of a spectrogram of `n_samples` samples.
pub fn frame_count(n_samples: usize, frame_len: usize, hop_len: usize) -> (r: usize)
    ensures
        r == frame_total(n_samples as nat, frame_len as nat, hop_len as nat),
{
    if n_samples == 0 || frame_len == 0 || hop_len == 0 {
        0
    } else if n_samples < frame_len {
        1
    } else {
        1 + (n_samples - frame_len) / hop_len
    }
}

proof fn lemma_frame_start_bound(n_samples: nat, frame_len: nat, hop_len: nat, i: nat)
    requires
        i < frame_total(n_samples, frame_len, hop_len),
    ensures
        i * hop_len < n_samples,
        n_samples >= frame_len ==> i * hop_len + frame_len <= n_samples,
{
    if n_samples < frame_len {
        assert(i == 0);
    } else {
        let q = ((n_samples - frame_len) as nat) / hop_len;
        assert(i <= q);
        assert(i * hop_len <= q * hop_len) by (nonlinear_arith)
            requires
                i <= q,
        ;
        assert(q * hop_len <= (n_samples - frame_len) as nat) by (nonlinear_arith)
            requires
                q == ((n_samples - frame_len) as nat) / hop_len,
                hop_len > 0,
        ;
    }
}

/// The sample range `[start, end)` of every frame, in order.
pub fn frame_spans(n_samples: usize, frame_len: usize, hop_len: usize) -> (r: Vec<(usize, usize)>)
    ensures
        r@.len() == frame_total(n_samples as nat, frame_len as nat, hop_len as nat),
        forall|i: int|
            0 <= i < r@.len() ==> (#[trigger] r@[i]).0 as nat == frame_range(
                n_samples as nat,
                frame_len as nat,
                hop_len as nat,
                i as nat,
            ).0 && r@[i].1 as nat == frame_range(
                n_samples as nat,
                frame_len as nat,
                hop_len as nat,
                i as nat,
            ).1,
{
    let n = frame_count(n_samples, frame_len, hop_len);
    let mut spans: Vec<(usize, usize)> = Vec::new();
    let mut i: usize = 0;
    while i < n
        invariant
            n == frame_total(n_samples as nat, frame_len as nat, hop_len as nat),
            i <= n,
            spans@.len() == i,
            forall|k: int|
                0 <= k < i ==> (#[trigger] spans@[k]).0 as nat == frame_range(
                    n_samples as nat,
                    frame_len as nat,
                    hop_len as nat,
                    k as nat,
                ).0 && spans@[k].1 as nat == frame_range(
                    n_samples as nat,
                    frame_len as nat,
                    hop_len as nat,
                    k as nat,
                ).1,
        decreases n - i,
    {
        proof {
            lemma_frame_start_bound(n_samples as nat, frame_len as nat, hop_len as nat, i as nat);
        }
        let start = i * hop_len;
        let end = if frame_len <= n_samples && start <= n_samples - frame_len {
            start + frame_len
        } else {
            n_samples
        };
        spans.push((start, end));
        i += 1;
    }
    spans
}

/// Every frame is a non-empty range of the audio no longer than a frame,
/// and consecutive frames start one hop apart.
pub proof fn lemma_frames_within_audio(n_samples: nat, frame_len: nat, hop_len: nat, i: nat)
    requires
        i < frame_total(n_samples, frame_len, hop_len),
    ensures
        frame_range(n_samples, frame_len, hop_len, i).0 < frame_range(n_samples, frame_len, hop_len, i).1,
        frame_range(n_samples, frame_len, hop_len, i).1 <= n_samples,
        frame_range(n_samples, frame_len, hop_len, i).1 - frame_range(n_samples, frame_len, hop_len, i).0 <= frame_len,
        i > 0 ==> frame_range(n_samples, frame_len, hop_len, i).0 == frame_range(n_samples, frame_len, hop_len, (i - 1) as nat).0 + hop_len,
{
    lemma_frame_start_bound(n_samples, frame_len, hop_len, i);
    if i > 0 {
        assert(i * hop_len == (i - 1) * hop_len + hop_len) by (nonlinear_arith);
    }
}

/// A two-second window at the training rate yields exactly the network's
/// fixed number of frames, with an FFT of one frame length.
pub proof fn lemma_window_frames()
    ensures
        frame_total(WINDOW_SAMPLES as nat, FRAME_LEN as nat, HOP_LEN as nat) == TIME_FRAMES,
        is_next_power_of_two(FRAME_LEN as nat, FRAME_LEN as nat),
{
    reveal_with_fuel(is_power_of_two, 11);
    assert(is_power_of_two(1024));
}

/// The analysis window `[start, end)` of index `i`: consecutive, non-overlapping
/// windows of `window_size` samples.
pub open spec fn window_range(window_size: nat, i: nat) -> (nat, nat) {
    (i * window_size, (i + 1) * window_size)
}

/// Number of whole analysis windows in `n_samples` samples (none for a zero size).
pub open spec fn window_total(n_samples: nat, window_size: nat) -> nat {
    if window_size == 0 {
        0
    } else {
        n_samples / window_size
    }
}

/// The whole analysis windows of an audio signal, in order; a trailing
/// partial window is dropped, and a zero window size yields none.
pub fn analysis_windows(n_samples: usize, window_size: usize) -> (r: Vec<(usize, usize)>)
    ensures
        r@.len() == window_total(n_samples as nat, window_size as nat),
        forall|i: int|
            0 <= i < r@.len() ==> (#[trigger] r@[i]).0 as nat == window_range(
                window_size as nat,
                i as nat,
            ).0 && r@[i].1 as nat == window_range(window_size as nat, i as nat).1,
{
    let mut windows: Vec<(usize, usize)> = Vec::new();
    if window_size == 0 {
        return windows;
    }
    let n = n_samples / window_size;
    let mut i: usize = 0;
    while i < n
        invariant
            window_size > 0,
            n == n_samples / window_size,
            i <= n,
            windows@.len() == i,
            forall|k: int|
                0 <= k < i ==> (#[trigger] windows@[k]).0 as nat == window_range(
                    window_size as nat,
                    k as nat,
                ).0 && windows@[k].1 as nat == window_range(window_size as nat, k as nat).1,
        decreases n - i,
    {
        assert((i + 1) * window_size <= n_samples) by (nonlinear_arith)
            requires
                i < n,
                n == n_samples / window_size,
                window_size > 0,
        ;
        assert((i + 1) * window_size == i * window_size + window_size) by (nonlinear_arith);
        let start = i * window_size;
        windows.push((start, start + window_size));
        i += 1;
    }
    windows
}

/// Analysis windows lie inside the audio and tile its beginning without gaps.
pub proof fn lemma_windows_tile(n_samples: nat, window_size: nat, i: nat)
    requires
        i < window_total(n_samples, window_size),
    ensures
        window_range(window_size, i).1 <= n_samples,
        window_range(window_size, i).1 - window_range(window_size, i).0 == window_size,
        i > 0 ==> window_range(window_size, (i - 1) as nat).1 == window_range(window_size, i).0,
{
    assert((i + 1) * window_size <= n_samples) by (nonlinear_arith)
        requires
            i < n_samples / window_size,
            window_size > 0,
    ;
    assert((i + 1) * window_size == i * window_size + window_size) by (nonlinear_arith);
    if i > 0 {
        assert(((i - 1) as nat + 1) * window_size == i * window_size) by (nonlinear_arith)
            requires
                i > 0,
        ;
    }
}

} // verus!
