//! Analysis frames, spectrogram bins, pitch lags and waveform chunks.
//!
//! Every analysis of the tool walks the signal in frames of `window`
//! samples, one frame every `hop` samples.  This module fixes where those
//! frames lie, which DFT bins a spectrogram keeps, which autocorrelation
//! lags the pitch search visits, and how the waveform overview cuts the
//! signal into chunks.
use vstd::prelude::*;

verus! {

/// Samples per analysis frame.
pub const ANALYSIS_WINDOW: usize = 1024;

/// Samples from one analysis frame to the next (half a frame).
pub const ANALYSIS_HOP: usize = 512;

/// Points of the waveform overview.
pub const WAVEFORM_POINTS: usize = 1200;

/// Rows of the spectrogram.
pub const SPECTROGRAM_ROWS: usize = 128;

/// Number of complete frames of `window` samples, one every `hop` samples,
/// that fit in a signal of `len` samples.
pub open spec fn spec_frame_count(len: int, window: int, hop: int) -> int {
    if len >= window {
        (len - window) / hop + 1
    } else {
        0
    }
}

/// Number of analysis frames: `(len - window) / hop + 1` when the signal
/// holds at least one window, otherwise zero.
pub fn frame_count(len: usize, window: usize, hop: usize) -> (n: usize)
    requires
        len >= window ==> hop > 0,
        spec_frame_count(len as int, window as int, hop as int) <= usize::MAX,
    ensures
        n == spec_frame_count(len as int, window as int, hop as int),
{
    if len >= window {
        (len - window) / hop + 1
    } else {
        0
    }
}

proof fn lemma_frame_fits(len: int, window: int, hop: int, w: int)
    requires
        hop > 0,
        0 <= window <= len,
        0 <= w < spec_frame_count(len, window, hop),
    ensures
        0 <= w * hop,
        w * hop + window <= len,
{
    let q = (len - window) / hop;
    assert(w <= q);
    assert(q * hop <= len - window) by (nonlinear_arith)
        requires
            q == (len - window) / hop,
            hop > 0,
            len - window >= 0,
    ;
    assert(w * hop <= q * hop) by (nonlinear_arith)
        requires
            w <= q,
            hop > 0,
    ;
    assert(0 <= w * hop) by (nonlinear_arith)
        requires
            0 <= w,
            hop > 0,
    ;
}

/// Law: the frames fill the signal.  Every frame that the count admits lies
/// wholly inside the signal, and the next frame after the last one would
/// run past its end, so no complete frame is left out.
pub proof fn lemma_frames_fill_signal(len: nat, window: nat, hop: nat)
    requires
        hop > 0,
    ensures
        forall|w: int|
            0 <= w < spec_frame_count(len as int, window as int, hop as int) ==> #[trigger] (w
                * hop) + window <= len,
        spec_frame_count(len as int, window as int, hop as int) * hop + window > len,
{
    let n = spec_frame_count(len as int, window as int, hop as int);
    assert forall|w: int| 0 <= w < n implies #[trigger] (w * hop) + window <= len by {
        lemma_frame_fits(len as int, window as int, hop as int, w);
    }
    if len >= window {
        let q = (len - window) / (hop as int);
        assert((q + 1) * hop > len - window) by (nonlinear_arith)
            requires
                q == (len - window) / (hop as int),
                hop > 0,
                len - window >= 0,
        ;
    }
}

/// Bounds `(start, end)` of frame `w`: it starts at `w * hop` and holds
/// `window` samples; the end is also the start plus the window clamped to
/// the signal length, which for a counted frame is the same.
pub fn frame_bounds(w: usize, len: usize, window: usize, hop: usize) -> (r: (usize, usize))
    requires
        hop > 0,
        w < spec_frame_count(len as int, window as int, hop as int),
    ensures
        r.0 == w * hop,
        r.1 == r.0 + window,
        r.1 <= len,
        r.1 == (if r.0 + window <= len {
            r.0 + window
        } else {
            len as int
        }),
{
    proof {
        lemma_frame_fits(len as int, window as int, hop as int, w as int);
    }
    let start = w * hop;
    let end = start + window;
    (start, end)
}

/// DFT bin that the `i`-th of `max_bins` spectrogram rows shows, out of
/// `num_bins` computed bins: `i * num_bins / max_bins`, at most the last bin.
pub open spec fn spec_bin_index(i: int, num_bins: int, max_bins: int) -> int {
    let idx = i * num_bins / max_bins;
    if idx < num_bins - 1 {
        idx
    } else {
        num_bins - 1
    }
}

/// The DFT bins kept by the spectrogram, one per displayed row.
pub fn spectrogram_bin_indices(num_bins: usize, max_bins: usize) -> (r: Vec<usize>)
    requires
        max_bins > 0 ==> num_bins > 0,
        max_bins > 0 ==> (max_bins - 1) * num_bins <= usize::MAX,
    ensures
        r@.len() == max_bins,
        forall|i: int|
            0 <= i < max_bins ==> #[trigger] r@[i] == spec_bin_index(
                i,
                num_bins as int,
                max_bins as int,
            ),
{
    let mut r: Vec<usize> = Vec::new();
    let mut i: usize = 0;
    while i < max_bins
        invariant
            i <= max_bins,
            max_bins > 0 ==> num_bins > 0,
            max_bins > 0 ==> (max_bins - 1) * num_bins <= usize::MAX,
            r@.len() == i,
            forall|k: int|
                0 <= k < i ==> #[trigger] r@[k] == spec_bin_index(
                    k,
                    num_bins as int,
                    max_bins as int,
                ),
        decreases max_bins - i,
    {
        assert(i * num_bins <= (max_bins - 1) * num_bins) by (nonlinear_arith)
            requires
                i < max_bins,
        ;
        let scaled = i * num_bins / max_bins;
        let idx = if scaled < num_bins - 1 {
            scaled
        } else {
            num_bins - 1
        };
        r.push(idx);
        i = i + 1;
    }
    r
}

/// Law: every kept bin exists, and rows further down never show a lower
/// bin than rows above them.
pub proof fn lemma_bin_indices_monotone(num_bins: nat, max_bins: nat, i: int, j: int)
    requires
        num_bins > 0,
        max_bins > 0,
        0 <= i <= j < max_bins,
    ensures
        0 <= spec_bin_index(i, num_bins as int, max_bins as int) < num_bins,
        spec_bin_index(i, num_bins as int, max_bins as int) <= spec_bin_index(
            j,
            num_bins as int,
            max_bins as int,
        ),
{
    let a = i * num_bins;
    let b = j * num_bins;
    assert(0 <= a <= b) by (nonlinear_arith)
        requires
            0 <= i <= j,
            num_bins > 0,
            a == i * num_bins,
            b == j * num_bins,
    ;
    assert(a / (max_bins as int) <= b / (max_bins as int)) by (nonlinear_arith)
        requires
            0 <= a <= b,
            max_bins > 0,
    ;
    assert(0 <= a / (max_bins as int)) by (nonlinear_arith)
        requires
            0 <= a,
            max_bins > 0,
    ;
}

/// Lag window of the pitch search for a given sample rate: from
/// `sample_rate / 500` (a 500 Hz period) up to, not including,
/// `sample_rate / 50` (a 50 Hz period).
pub fn pitch_lag_range(sample_rate: u32) -> (r: (usize, usize))
    ensures
        r.0 == sample_rate / 500,
        r.1 == sample_rate / 50,
        r.0 <= r.1,
{
    let min_lag: u32 = sample_rate / 500;
    let max_lag: u32 = sample_rate / 50;
    (min_lag as usize, max_lag as usize)
}

/// Number of sample pairs `(x[i], x[i + lag])` that a frame of `len`
/// samples holds for one autocorrelation lag.
pub fn autocorrelation_pairs(len: usize, lag: usize) -> (n: usize)
    requires
        lag <= len,
    ensures
        n == len - lag,
{
    len - lag
}

/// Samples per waveform chunk: `len / target` rounded up.
pub open spec fn spec_chunk_size(len: int, target: int) -> int {
    (len + target - 1) / target
}

/// Bounds of waveform chunk `i`: it starts at `i * size` and ends at the
/// next chunk's start or at the end of the signal, whichever comes first.
/// A chunk whose start is not below its end holds no sample.
pub open spec fn spec_chunk(len: int, target: int, i: int) -> (int, int) {
    let size = spec_chunk_size(len, target);
    let end = (i + 1) * size;
    (i * size, if end < len {
        end
    } else {
        len
    })
}

/// The chunks of the waveform overview: none for an empty signal, else
/// `target` chunks of `ceil(len / target)` samples each, the last ones
/// cut short or empty where the signal ends.
pub fn waveform_chunks(len: usize, target: usize) -> (r: Vec<(usize, usize)>)
    requires
        len + target <= usize::MAX,
    ensures
        len == 0 ==> r@.len() == 0,
        len > 0 ==> r@.len() == target,
        forall|i: int|
            0 <= i < r@.len() ==> (#[trigger] r@[i].0 as int, r@[i].1 as int) == spec_chunk(
                len as int,
                target as int,
                i,
            ),
{
    let mut r: Vec<(usize, usize)> = Vec::new();
    if len == 0 || target == 0 {
        return r;
    }
    let size = (len + target - 1) / target;
    assert(size * target <= len + target - 1) by (nonlinear_arith)
        requires
            size == (len + target - 1) / (target as int),
            target > 0,
            len + target - 1 >= 0,
    ;
    let mut i: usize = 0;
    while i < target
        invariant
            0 < target,
            len + target <= usize::MAX,
            size == spec_chunk_size(len as int, target as int),
            size * target <= len + target - 1,
            i <= target,
            r@.len() == i,
            forall|k: int|
                0 <= k < i ==> (#[trigger] r@[k].0 as int, r@[k].1 as int) == spec_chunk(
                    len as int,
                    target as int,
                    k,
                ),
        decreases target - i,
    {
        assert((i + 1) * size <= size * target) by (nonlinear_arith)
            requires
                i < target,
                size >= 0,
        ;
        assert(i * size <= (i + 1) * size) by (nonlinear_arith)
            requires
                size >= 0,
        ;
        let start = i * size;
        let next = (i + 1) * size;
        let end = if next < len {
            next
        } else {
            len
        };
        r.push((start, end));
        i = i + 1;
    }
    r
}

/// Law: the chunk size is the least size whose `target` chunks cover the
/// signal: `target` chunks of it reach the end, and `target` chunks of one
/// sample less do not; it is `len / target` rounded up.
pub proof fn lemma_chunk_size_least_cover(len: nat, target: nat)
    requires
        target > 0,
    ensures
        spec_chunk_size(len as int, target as int) * target >= len,
        (spec_chunk_size(len as int, target as int) - 1) * target < len,
{
    let size = spec_chunk_size(len as int, target as int);
    assert(size * target >= len && (size - 1) * target < len) by (nonlinear_arith)
        requires
            size == (len + target - 1) / (target as int),
            target > 0,
            len >= 0,
    ;
}

/// Law: the chunks of a non-empty signal cover it.  Every sample `j` lies
/// in chunk `j / ceil(len / target)`, which is one of the `target` chunks,
/// and the chunks follow one another without overlap.
pub proof fn lemma_chunks_cover(len: nat, target: nat, j: int)
    requires
        target > 0,
        0 <= j < len,
    ensures
        ({
            let i = j / spec_chunk_size(len as int, target as int);
            &&& 0 <= i < target
            &&& spec_chunk(len as int, target as int, i).0 <= j < spec_chunk(
                len as int,
                target as int,
                i,
            ).1
        }),
        forall|i: int|
            0 <= i ==> #[trigger] spec_chunk(len as int, target as int, i).1 <= spec_chunk(
                len as int,
                target as int,
                i + 1,
            ).0,
{
    let size = spec_chunk_size(len as int, target as int);
    assert(size >= 1) by (nonlinear_arith)
        requires
            size == (len + target - 1) / (target as int),
            target > 0,
            len > 0,
    ;
    assert(size * target >= len) by (nonlinear_arith)
        requires
            size == (len + target - 1) / (target as int),
            target > 0,
            len > 0,
    ;
    let i = j / size;
    assert(0 <= i && i * size <= j && j < (i + 1) * size) by (nonlinear_arith)
        requires
            i == j / size,
            size >= 1,
            j >= 0,
    ;
    assert(i < target) by (nonlinear_arith)
        requires
            i * size <= j,
            j < len,
            len <= size * target,
            size >= 1,
            i >= 0,
    ;
    assert forall|k: int| 0 <= k implies #[trigger] spec_chunk(len as int, target as int, k).1
        <= spec_chunk(len as int, target as int, k + 1).0 by {
        assert((k + 1) * size == (k + 1) * size);
    }
}

} // verus!
